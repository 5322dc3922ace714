use vstd::prelude::*;
use vstd::arithmetic::div_mod::{lemma_div_denominator, lemma_fundamental_div_mod};
use vstd::utf8::{
    decode_utf8, encode_utf8, encode_utf8_decode_utf8, encode_utf8_valid_utf8, is_ascii_chars,
    is_ascii_chars_encode_utf8, valid_utf8,
};
use crate::lexical::{
    classify, code_point, ending, hex_value, is_delimiter, is_scalar, is_whitespace,
    lemma_plain_run, lemma_term_end, lemma_tokens_step, lex, scan_escape, scan_string, term_end,
    tokens, trim, word_false, word_null, word_true, BACKSLASH, COLON, COMMA, LBRACE, LBRACKET,
    QUOTE, RBRACE, RBRACKET, SLASH, SPACE,
};
use crate::model::{
    distinct_keys, items_well_formed, lemma_collect_of_distinct, lemma_key_index_is,
    members_well_formed, same, same_items, well_formed, within, Fault, Json, Members, Tok,
};
use crate::number::{
    as_text, digits_end, is_decimal, is_digit, is_exponent, is_float_literal, is_sign, is_word,
    lower, word_inf, word_infinity, word_nan, DOT,
};
use crate::render::{
    all_plain, encodable, escape, escape_all, hex_digits, hex_upper, is_plain, items_encodable,
    key_separator, member_text, members_encodable, quoted, render, render_items, render_members,
    separator,
};
use crate::syntax::{
    decode, items, lemma_items_step, lemma_members_step, lemma_value_step, members, value,
};

verus! {

/// A byte that can stand in a bare lexeme: neither whitespace, nor a delimiter, nor a
/// quote.
pub open spec fn is_term_byte(b: u8) -> bool {
    !is_whitespace(b) && !is_delimiter(b) && b != QUOTE
}

/// A bare lexeme can end in front of `tail`: the input ends there, or whitespace or a
/// delimiter follows.
pub open spec fn ends_terms(tail: Seq<u8>) -> bool {
    tail.len() == 0 || is_whitespace(tail[0]) || is_delimiter(tail[0])
}

/// Every character of the text lies in the basic plane, at or below `FFFF`.
pub open spec fn in_basic_plane(text: Seq<char>) -> bool {
    forall|i: int| 0 <= i < text.len() ==> (#[trigger] text[i]) as int <= 0xffff
}

/// What `digits_end` returns: the end of a run of digits.
pub proof fn lemma_digits_end(s: Seq<u8>, i: int)
    requires
        0 <= i <= s.len(),
    ensures
        i <= digits_end(s, i) <= s.len(),
        forall|j: int| i <= j < digits_end(s, i) ==> is_digit(#[trigger] s[j]),
    decreases s.len() - i,
{
    if i < s.len() && is_digit(s[i]) {
        lemma_digits_end(s, i + 1);
    }
}

/// A letter, a digit, a sign or a point.
pub open spec fn is_literal_byte(b: u8) -> bool {
    is_digit(b) || is_sign(b) || b == DOT || (0x41 <= b <= 0x5a) || (0x61 <= b <= 0x7a)
}

/// A literal that spells a word of small letters consists of a sign and letters.
proof fn lemma_word_bytes(s: Seq<u8>, from: int, word: Seq<u8>)
    requires
        0 <= from <= 1,
        from == 1 ==> s.len() > 0 && is_sign(s[0]),
        is_word(s, from, word),
        word.len() > 0,
        forall|i: int| 0 <= i < word.len() ==> 0x61 <= #[trigger] word[i] <= 0x7a,
    ensures
        s.len() > 0,
        forall|i: int| 0 <= i < s.len() ==> is_literal_byte(#[trigger] s[i]),
{
    assert forall|i: int| 0 <= i < s.len() implies is_literal_byte(#[trigger] s[i]) by {
        if i >= from {
            let k = i - from;
            assert(lower(s[from + k]) == word[k]);
        }
    }
}

/// A literal of a floating-point number is not empty and consists of letters, digits,
/// signs and points.
pub proof fn lemma_literal_bytes(s: Seq<u8>)
    requires
        is_float_literal(s),
    ensures
        s.len() > 0,
        forall|i: int| 0 <= i < s.len() ==> is_literal_byte(#[trigger] s[i]),
{
    let from: int = if s.len() > 0 && is_sign(s[0]) {
        1
    } else {
        0
    };
    if is_word(s, from, word_inf()) {
        lemma_word_bytes(s, from, word_inf());
    } else if is_word(s, from, word_infinity()) {
        lemma_word_bytes(s, from, word_infinity());
    } else if is_word(s, from, word_nan()) {
        lemma_word_bytes(s, from, word_nan());
    } else {
        assert(is_decimal(s, from));
        lemma_digits_end(s, from);
        let point = digits_end(s, from);
        let pointed = point < s.len() && s[point] == DOT;
        if pointed {
            lemma_digits_end(s, point + 1);
        }
        let end = if pointed {
            digits_end(s, point + 1)
        } else {
            point
        };
        if end != s.len() {
            assert(is_exponent(s, end));
            let digits = if end + 1 < s.len() && is_sign(s[end + 1]) {
                end + 2
            } else {
                end + 1
            };
            lemma_digits_end(s, digits);
        }
    }
}

/// `true`, `false` and `null` are no literals of numbers.
pub proof fn lemma_words_are_no_numbers()
    ensures
        !is_float_literal(word_true()),
        !is_float_literal(word_false()),
        !is_float_literal(word_null()),
{
    reveal_with_fuel(digits_end, 2);
    let t = word_true();
    assert(lower(t[0int + 0]) != word_inf()[0]);
    assert(lower(t[0int + 0]) != word_infinity()[0]);
    assert(lower(t[0int + 0]) != word_nan()[0]);
    let f = word_false();
    assert(lower(f[0int + 0]) != word_inf()[0]);
    assert(lower(f[0int + 0]) != word_infinity()[0]);
    assert(lower(f[0int + 0]) != word_nan()[0]);
    let n = word_null();
    assert(lower(n[0int + 1]) != word_inf()[1]);
    assert(lower(n[0int + 0]) != word_infinity()[0]);
    assert(lower(n[0int + 1]) != word_nan()[1]);
}

/// A bare lexeme in front of something that ends it is read as one token.
pub proof fn lemma_lex_term(t: Seq<u8>, tail: Seq<u8>)
    requires
        t.len() > 0,
        forall|i: int| 0 <= i < t.len() ==> is_term_byte(#[trigger] t[i]),
        ends_terms(tail),
    ensures
        lex(t + tail) == match classify(t) {
            Ok(tok) => Ok((tok, tail)),
            Err(f) => Err(f),
        },
{
    reveal(lex);
    let s = t + tail;
    assert(s[0] == t[0]);
    assert(trim(s) == s);
    lemma_term_end(s, 1);
    let n = term_end(s, 1);
    if n < t.len() {
        assert(s[n] == t[n]);
    }
    if n > t.len() {
        assert(s[t.len() as int] == tail[0]);
    }
    assert(n == t.len());
    assert(s.subrange(0, n) =~= t);
    assert(s.skip(n) =~= tail);
}

/// What a hexadecimal digit of the encoder stands for.
pub proof fn lemma_hex_upper(d: int)
    requires
        0 <= d < 16,
    ensures
        hex_value(hex_upper(d)) == Some(d),
{
}

/// A number below 65536 is the sum of its four hexadecimal places.
proof fn lemma_hex_places(n: int)
    requires
        0 <= n <= 0xffff,
    ensures
        0 <= n / 0x1000 % 16 < 16,
        0 <= n / 0x100 % 16 < 16,
        0 <= n / 0x10 % 16 < 16,
        0 <= n % 16 < 16,
        (n / 0x1000 % 16) * 4096 + (n / 0x100 % 16) * 256 + (n / 0x10 % 16) * 16 + n % 16 == n,
{
    let q1 = n / 0x10;
    let q2 = n / 0x100;
    let q3 = n / 0x1000;
    assert(q1 / 16 == q2) by {
        lemma_div_denominator(n, 0x10, 16);
    }
    assert(q2 / 16 == q3) by {
        lemma_div_denominator(n, 0x100, 16);
    }
    assert(n == 16 * q1 + n % 16) by {
        lemma_fundamental_div_mod(n, 16);
    }
    assert(q1 == 16 * q2 + q1 % 16) by {
        lemma_fundamental_div_mod(q1, 16);
    }
    assert(q2 == 16 * q3 + q2 % 16) by {
        lemma_fundamental_div_mod(q2, 16);
    }
    assert(0 <= q3 < 16);
    assert(q3 % 16 == q3);
}

/// The four digits of the encoder spell the code point that they were made from.
proof fn lemma_code_point_of_digits(n: int)
    requires
        0 <= n <= 0xffff,
    ensures
        hex_digits(n).len() == 4,
        code_point(hex_digits(n)) == Some(n),
{
    let h = hex_digits(n);
    let a = n / 0x1000 % 16;
    let b = n / 0x100 % 16;
    let c = n / 0x10 % 16;
    let d = n % 16;
    lemma_hex_places(n);
    lemma_hex_upper(a);
    lemma_hex_upper(b);
    lemma_hex_upper(c);
    lemma_hex_upper(d);
    assert(h =~= seq![hex_upper(a), hex_upper(b), hex_upper(c), hex_upper(d)]);
    assert(h[0] == hex_upper(a) && h[1] == hex_upper(b) && h[2] == hex_upper(c) && h[3]
        == hex_upper(d));
}

/// The character stands for itself in an encoded string: it is an ASCII character
/// that is neither a control character nor a quote, a backslash or a slash.
pub open spec fn stands_for_itself(c: char) -> bool {
    let n = c as int;
    0x20 <= n < 0x7f && n != QUOTE && n != BACKSLASH && n != SLASH
}

/// A character that stands for itself is encoded as its one byte.
proof fn lemma_escape_of_itself(c: char)
    requires
        stands_for_itself(c),
    ensures
        escape(c) == seq![(c as int) as u8],
        ((c as int) as u8) as char == c,
{
    reveal(escape);
}

/// A backslash and the letter or sign of a character are read as that character.
proof fn lemma_scan_two_byte_escape(c: char, rest: Seq<u8>)
    requires
        ({
            let n = c as int;
            n == QUOTE || n == BACKSLASH || n == SLASH || n == 0x08 || n == 0x0c || n == 0x0a || n
                == 0x0d || n == 0x09
        }),
    ensures
        escape(c).len() == 2,
        escape(c)[0] == BACKSLASH,
        scan_escape(escape(c).skip(1) + rest) == Ok::<(char, int), Fault>((c, 1)),
{
    reveal(escape);
    let e = escape(c);
    let u = e.skip(1) + rest;
    assert(u[0] == e[1]);
}

/// A backslash, the letter `u` and the four hexadecimal digits of a character are read
/// as that character.
proof fn lemma_scan_hex_escape(c: char, rest: Seq<u8>)
    requires
        0x80 <= c as int <= 0xffff,
    ensures
        escape(c).len() == 6,
        escape(c)[0] == BACKSLASH,
        scan_escape(escape(c).skip(1) + rest) == Ok::<(char, int), Fault>((c, 5)),
{
    reveal(escape);
    let n = c as int;
    let h = hex_digits(n);
    lemma_code_point_of_digits(n);
    let e = escape(c);
    assert(e =~= seq![BACKSLASH, 0x75u8] + h);
    let u = e.skip(1) + rest;
    assert(u.len() >= 5);
    assert(u[0] == 0x75);
    assert(u.subrange(1, 5) =~= h);
    assert(is_scalar(n));
    assert(n as char == c);
}

/// What stands for a character that does not stand for itself is read as that
/// character: it is a backslash and an escape that takes the rest of it.
pub proof fn lemma_scan_escaped_char(c: char, rest: Seq<u8>)
    requires
        is_plain(c),
        c as int <= 0xffff,
        !stands_for_itself(c),
    ensures
        escape(c).len() >= 2,
        escape(c)[0] == BACKSLASH,
        scan_escape(escape(c).skip(1) + rest) == Ok::<(char, int), Fault>(
            (c, escape(c).len() - 1),
        ),
{
    if c as int >= 0x80 {
        lemma_scan_hex_escape(c, rest);
    } else {
        lemma_scan_two_byte_escape(c, rest);
    }
}

/// Bytes that are ASCII characters are UTF-8, and they encode those characters.
pub proof fn lemma_ascii_is_utf8(run: Seq<u8>)
    requires
        is_ascii(run),
    ensures
        valid_utf8(run),
        decode_utf8(run) == as_text(run),
{
    let text = as_text(run);
    assert(is_ascii_chars(text)) by {
        assert forall|i: int| 0 <= i < text.len() implies '\0' <= #[trigger] text[i]
            <= '\u{7f}' by {
            assert(run[i] < 0x80);
        }
    }
    is_ascii_chars_encode_utf8(text);
    assert(encode_utf8(text) =~= run) by {
        assert forall|i: int| 0 <= i < run.len() implies encode_utf8(text)[i] == run[i] by {
            assert(text[i] as u8 == encode_utf8(text)[i]);
        }
    }
    encode_utf8_valid_utf8(text);
    encode_utf8_decode_utf8(text);
}

/// The bytes are ASCII characters that stand for themselves in a string.
pub open spec fn is_plain_run(run: Seq<u8>) -> bool {
    forall|i: int|
        0 <= i < run.len() ==> (#[trigger] run[i]) < 0x80 && run[i] != QUOTE && run[i]
            != BACKSLASH
}

/// A run of bytes that are UTF-8 and hold neither quote nor backslash, and the
/// closing quote behind it, are read as the text of the run.
pub proof fn lemma_scan_run_and_quote(run: Seq<u8>, tail: Seq<u8>)
    requires
        forall|i: int| 0 <= i < run.len() ==> run[i] != QUOTE && run[i] != BACKSLASH,
        valid_utf8(run),
    ensures
        scan_string(run + seq![QUOTE] + tail) == Ok::<(Seq<char>, Seq<u8>), Fault>(
            (decode_utf8(run), tail),
        ),
{
    let rem = seq![QUOTE] + tail;
    lemma_plain_run(run, rem);
    assert(run + seq![QUOTE] + tail =~= run + rem);
    assert(rem.skip(1) =~= tail);
}

/// A run of bytes that are UTF-8 and hold neither quote nor backslash, and an escape
/// behind it, are read as the text of the run and the character of the escape, and
/// the rest of the string follows.
pub proof fn lemma_scan_run_and_escape(
    run: Seq<u8>,
    body: Seq<u8>,
    c: char,
    text: Seq<char>,
    after: Seq<u8>,
)
    requires
        forall|i: int| 0 <= i < run.len() ==> run[i] != QUOTE && run[i] != BACKSLASH,
        valid_utf8(run),
        scan_escape(body) is Ok,
        scan_escape(body)->Ok_0.0 == c,
        0 <= scan_escape(body)->Ok_0.1 <= body.len(),
        scan_string(body.skip(scan_escape(body)->Ok_0.1)) == Ok::<(Seq<char>, Seq<u8>), Fault>(
            (text, after),
        ),
    ensures
        scan_string(run + seq![BACKSLASH] + body) == Ok::<(Seq<char>, Seq<u8>), Fault>(
            (decode_utf8(run) + seq![c] + text, after),
        ),
{
    let rem = seq![BACKSLASH] + body;
    let s = run + rem;
    let k = scan_escape(body)->Ok_0.1;
    lemma_plain_run(run, rem);
    assert(run + seq![BACKSLASH] + body =~= s);
    assert(rem.skip(1) =~= body);
    assert(s.skip(run.len() as int + 1 + k) =~= body.skip(k));
}

/// Scanning what is left of an encoded string, behind bytes of it that stand for
/// themselves, gives those bytes and the rest of the text, and goes on behind the
/// closing quote.
pub proof fn lemma_scan_escaped_from(run: Seq<u8>, text: Seq<char>, tail: Seq<u8>)
    requires
        is_plain_run(run),
        all_plain(text),
        in_basic_plane(text),
    ensures
        scan_string(run + escape_all(text) + seq![QUOTE] + tail) == Ok::<
            (Seq<char>, Seq<u8>),
            Fault,
        >((as_text(run) + text, tail)),
    decreases text.len(),
{
    assert(is_ascii(run));
    lemma_ascii_is_utf8(run);
    if text.len() == 0 {
        lemma_scan_run_and_quote(run, tail);
        assert(run + escape_all(text) + seq![QUOTE] + tail =~= run + seq![QUOTE] + tail);
        assert(as_text(run) + text =~= as_text(run));
    } else {
        let c = text[0];
        let more = text.skip(1);
        assert(all_plain(more)) by {
            assert forall|i: int| 0 <= i < more.len() implies is_plain(#[trigger] more[i]) by {
                assert(more[i] == text[i + 1]);
            }
        }
        assert(in_basic_plane(more)) by {
            assert forall|i: int| 0 <= i < more.len() implies (#[trigger] more[i]) as int
                <= 0xffff by {
                assert(more[i] == text[i + 1]);
            }
        }
        assert(escape_all(text) == escape(c) + escape_all(more));
        if stands_for_itself(c) {
            lemma_scan_itself(run, c, more, tail);
            lemma_scan_escaped_from(run.push((c as int) as u8), more, tail);
        } else {
            lemma_scan_escaped_from(Seq::empty(), more, tail);
            lemma_scan_not_itself(run, c, more, tail);
        }
        assert(seq![c] + more =~= text);
        assert(as_text(run) + (seq![c] + more) =~= as_text(run) + seq![c] + more);
    }
}

/// The step of `lemma_scan_escaped_from` for a character that stands for itself: it
/// joins the bytes in front of it.
proof fn lemma_scan_itself(run: Seq<u8>, c: char, more: Seq<char>, tail: Seq<u8>)
    requires
        is_plain_run(run),
        stands_for_itself(c),
        all_plain(more),
        in_basic_plane(more),
    ensures
        is_plain_run(run.push((c as int) as u8)),
        scan_string(run + (escape(c) + escape_all(more)) + seq![QUOTE] + tail) == scan_string(
            run.push((c as int) as u8) + escape_all(more) + seq![QUOTE] + tail,
        ),
        as_text(run.push((c as int) as u8)) + more == as_text(run) + seq![c] + more,
    decreases more.len(),
{
    lemma_escape_of_itself(c);
    let b = (c as int) as u8;
    let longer = run.push(b);
    assert(run + (escape(c) + escape_all(more)) + seq![QUOTE] + tail =~= longer + escape_all(more)
        + seq![QUOTE] + tail);
    assert(as_text(longer) + more =~= as_text(run) + seq![c] + more);
}

/// The step of `lemma_scan_escaped_from` for a character that does not stand for
/// itself: the bytes in front of it are read, then its escape, then the rest.
proof fn lemma_scan_not_itself(run: Seq<u8>, c: char, more: Seq<char>, tail: Seq<u8>)
    requires
        is_plain_run(run),
        valid_utf8(run),
        decode_utf8(run) == as_text(run),
        is_plain(c),
        c as int <= 0xffff,
        !stands_for_itself(c),
        scan_string(Seq::<u8>::empty() + escape_all(more) + seq![QUOTE] + tail) == Ok::<
            (Seq<char>, Seq<u8>),
            Fault,
        >((as_text(Seq::<u8>::empty()) + more, tail)),
    ensures
        scan_string(run + (escape(c) + escape_all(more)) + seq![QUOTE] + tail) == Ok::<
            (Seq<char>, Seq<u8>),
            Fault,
        >((as_text(run) + seq![c] + more, tail)),
{
    let rest = escape_all(more) + seq![QUOTE] + tail;
    let e = escape(c);
    lemma_scan_escaped_char(c, rest);
    let body = e.skip(1) + rest;
    assert(body.skip(e.len() - 1) =~= rest);
    assert(Seq::<u8>::empty() + escape_all(more) + seq![QUOTE] + tail =~= rest);
    assert(as_text(Seq::<u8>::empty()) + more =~= more);
    lemma_scan_run_and_escape(run, body, c, more, tail);
    assert(run + (e + escape_all(more)) + seq![QUOTE] + tail =~= run + seq![BACKSLASH] + body);
}

/// Scanning an encoded string gives back the text, and goes on behind the closing
/// quote.
pub proof fn lemma_scan_escaped(text: Seq<char>, tail: Seq<u8>)
    requires
        all_plain(text),
        in_basic_plane(text),
    ensures
        scan_string(escape_all(text) + seq![QUOTE] + tail) == Ok::<(Seq<char>, Seq<u8>), Fault>(
            (text, tail),
        ),
{
    let none = Seq::<u8>::empty();
    lemma_scan_escaped_from(none, text, tail);
    assert(none + escape_all(text) + seq![QUOTE] + tail =~= escape_all(text) + seq![QUOTE] + tail);
    assert(as_text(none) + text =~= text);
}

/// An encoded string is read as one token.
pub proof fn lemma_lex_quoted(text: Seq<char>, tail: Seq<u8>)
    requires
        all_plain(text),
        in_basic_plane(text),
    ensures
        lex(quoted(text) + tail) == Ok::<(Tok, Seq<u8>), Fault>((Tok::String(text), tail)),
{
    reveal(lex);
    let s = quoted(text) + tail;
    assert(s[0] == QUOTE);
    assert(trim(s) == s);
    assert(s.skip(1) =~= escape_all(text) + seq![QUOTE] + tail);
    lemma_scan_escaped(text, tail);
}

/// A byte that is a token by itself is read as that token.
pub proof fn lemma_lex_delimiter(b: u8, tail: Seq<u8>)
    requires
        is_delimiter(b),
    ensures
        lex(seq![b] + tail) matches Ok((tok, after)) && after == tail && tok == (if b == LBRACE {
            Tok::LBrace
        } else if b == RBRACE {
            Tok::RBrace
        } else if b == LBRACKET {
            Tok::LAngle
        } else if b == RBRACKET {
            Tok::RAngle
        } else if b == COMMA {
            Tok::Comma
        } else {
            Tok::Colon
        }),
{
    reveal(lex);
    let s = seq![b] + tail;
    assert(s[0] == b);
    assert(trim(s) == s);
    assert(s.skip(1) =~= tail);
}

/// A space in front of the input changes neither the tokens nor what ends them.
pub proof fn lemma_tokens_after_space(s: Seq<u8>)
    ensures
        lex(seq![SPACE] + s) == lex(s),
        tokens(seq![SPACE] + s) == tokens(s),
        ending(seq![SPACE] + s) == ending(s),
{
    reveal(lex);
    let t = seq![SPACE] + s;
    assert(t[0] == SPACE);
    assert(t.skip(1) =~= s);
    assert(trim(t) == trim(s));
    lemma_tokens_step(t);
    lemma_tokens_step(s);
}

/// Every string in the value, keys included, lies in the basic plane.
pub open spec fn basic(j: Json) -> bool
    decreases j,
{
    match j {
        Json::String(text) => in_basic_plane(text),
        Json::Array(elements) => items_basic(elements),
        Json::Object(entries) => members_basic(entries),
        _ => true,
    }
}

/// Every string in the elements lies in the basic plane.
pub open spec fn items_basic(elements: Seq<Json>) -> bool
    decreases elements,
{
    elements.len() == 0 || (basic(elements[0]) && items_basic(elements.skip(1)))
}

/// Every key and every string in a value of the members lies in the basic plane.
pub open spec fn members_basic(entries: Members) -> bool
    decreases entries,
{
    entries.len() == 0 || (in_basic_plane(entries[0].0) && basic(entries[0].1) && members_basic(
        entries.skip(1),
    ))
}

/// The tokens that the text of a value consists of.
pub open spec fn toks(j: Json) -> Seq<Tok>
    decreases j,
{
    match j {
        Json::String(text) => seq![Tok::String(text)],
        Json::Number(literal) => seq![Tok::Number(literal)],
        Json::Boolean(b) => seq![Tok::Boolean(b)],
        Json::Null => seq![Tok::Null],
        Json::Array(elements) => seq![Tok::LAngle] + item_toks(elements) + seq![Tok::RAngle],
        Json::Object(entries) => seq![Tok::LBrace] + member_toks(entries) + seq![Tok::RBrace],
    }
}

/// The tokens of the elements, with a comma between each two.
pub open spec fn item_toks(elements: Seq<Json>) -> Seq<Tok>
    decreases elements,
{
    if elements.len() == 0 {
        Seq::empty()
    } else if elements.len() == 1 {
        toks(elements[0])
    } else {
        toks(elements[0]) + seq![Tok::Comma] + item_toks(elements.skip(1))
    }
}

/// The tokens of one member: the key, a colon and the tokens of the value.
pub open spec fn entry_toks(key: Seq<char>, value_toks: Seq<Tok>) -> Seq<Tok> {
    seq![Tok::String(key), Tok::Colon] + value_toks
}

/// The tokens of the members, with a comma between each two.
pub open spec fn member_toks(entries: Members) -> Seq<Tok>
    decreases entries,
{
    if entries.len() == 0 {
        Seq::empty()
    } else if entries.len() == 1 {
        entry_toks(entries[0].0, toks(entries[0].1))
    } else {
        entry_toks(entries[0].0, toks(entries[0].1)) + seq![Tok::Comma] + member_toks(
            entries.skip(1),
        )
    }
}

/// The tokens of an input that starts with a token.
pub proof fn lemma_tokens_cons(s: Seq<u8>, t: Tok, rest: Seq<u8>)
    requires
        lex(s) == Ok::<(Tok, Seq<u8>), Fault>((t, rest)),
    ensures
        tokens(s) == seq![t] + tokens(rest),
        ending(s) == ending(rest),
{
    lemma_tokens_step(s);
}

/// The tokens of an input that starts with a delimiter and a space.
proof fn lemma_tokens_separator(b: u8, s: Seq<u8>, t: Tok)
    requires
        b == COMMA && t == Tok::Comma || b == COLON && t == Tok::Colon,
    ensures
        tokens(seq![b, SPACE] + s) == seq![t] + tokens(s),
        ending(seq![b, SPACE] + s) == ending(s),
{
    let spaced = seq![SPACE] + s;
    lemma_lex_delimiter(b, spaced);
    assert(seq![b, SPACE] + s =~= seq![b] + spaced);
    lemma_tokens_cons(seq![b] + spaced, t, spaced);
    lemma_tokens_after_space(s);
}

/// The tokens of an input that starts with one delimiter.
proof fn lemma_tokens_delimiter(b: u8, s: Seq<u8>, t: Tok)
    requires
        b == LBRACE && t == Tok::LBrace || b == RBRACE && t == Tok::RBrace || b == LBRACKET && t
            == Tok::LAngle || b == RBRACKET && t == Tok::RAngle,
    ensures
        tokens(seq![b] + s) == seq![t] + tokens(s),
        ending(seq![b] + s) == ending(s),
{
    lemma_lex_delimiter(b, s);
    lemma_tokens_cons(seq![b] + s, t, s);
}

/// The tokens of a bare lexeme that is a token, in front of something that ends it.
proof fn lemma_tokens_term(t: Seq<u8>, tok: Tok, tail: Seq<u8>)
    requires
        t.len() > 0,
        forall|i: int| 0 <= i < t.len() ==> is_term_byte(#[trigger] t[i]),
        classify(t) == Ok::<Tok, Fault>(tok),
        ends_terms(tail),
    ensures
        tokens(t + tail) == seq![tok] + tokens(tail),
        ending(t + tail) == ending(tail),
{
    lemma_lex_term(t, tail);
    lemma_tokens_cons(t + tail, tok, tail);
}

/// The tokens of the text of a scalar.
proof fn lemma_tokens_of_scalar(j: Json, tail: Seq<u8>)
    requires
        j is String || j is Number || j is Boolean || j is Null,
        well_formed(j),
        encodable(j),
        basic(j),
        ends_terms(tail),
    ensures
        tokens(render(j) + tail) == toks(j) + tokens(tail),
        ending(render(j) + tail) == ending(tail),
{
    match j {
        Json::String(text) => {
            lemma_lex_quoted(text, tail);
            lemma_tokens_cons(quoted(text) + tail, Tok::String(text), tail);
        },
        Json::Number(literal) => {
            lemma_literal_bytes(literal);
            lemma_words_are_no_numbers();
            assert forall|i: int| 0 <= i < literal.len() implies is_term_byte(
                #[trigger] literal[i],
            ) by {
                assert(is_literal_byte(literal[i]));
            }
            lemma_tokens_term(literal, Tok::Number(literal), tail);
        },
        Json::Boolean(b) => {
            if b {
                lemma_tokens_term(word_true(), Tok::Boolean(true), tail);
            } else {
                assert(word_false().len() != word_true().len());
                lemma_tokens_term(word_false(), Tok::Boolean(false), tail);
            }
        },
        Json::Null => {
            assert(word_null()[0] != word_true()[0]);
            assert(word_null().len() != word_false().len());
            lemma_tokens_term(word_null(), Tok::Null, tail);
        },
        _ => {},
    }
}

/// The tokens of the text of a value are the tokens of the value, whatever follows
/// the text, as long as it ends a bare lexeme.
pub proof fn lemma_tokens_of_render(j: Json, tail: Seq<u8>)
    requires
        well_formed(j),
        encodable(j),
        basic(j),
        ends_terms(tail),
    ensures
        tokens(render(j) + tail) == toks(j) + tokens(tail),
        ending(render(j) + tail) == ending(tail),
    decreases j, 0nat,
{
    match j {
        Json::Array(elements) => {
            let close = seq![RBRACKET] + tail;
            let inner = render_items(elements) + close;
            lemma_tokens_of_items(elements, close);
            lemma_tokens_delimiter(RBRACKET, tail, Tok::RAngle);
            lemma_tokens_delimiter(LBRACKET, inner, Tok::LAngle);
            assert(render(j) + tail =~= seq![LBRACKET] + inner);
            assert(toks(j) + tokens(tail) =~= seq![Tok::LAngle] + (item_toks(elements) + (
                seq![Tok::RAngle] + tokens(tail))));
        },
        Json::Object(entries) => {
            let close = seq![RBRACE] + tail;
            let inner = render_members(entries) + close;
            lemma_tokens_of_members(entries, close);
            lemma_tokens_delimiter(RBRACE, tail, Tok::RBrace);
            lemma_tokens_delimiter(LBRACE, inner, Tok::LBrace);
            assert(render(j) + tail =~= seq![LBRACE] + inner);
            assert(toks(j) + tokens(tail) =~= seq![Tok::LBrace] + (member_toks(entries) + (
                seq![Tok::RBrace] + tokens(tail))));
        },
        _ => {
            lemma_tokens_of_scalar(j, tail);
        },
    }
}

/// The tokens of the texts of the elements of an array.
pub proof fn lemma_tokens_of_items(elements: Seq<Json>, tail: Seq<u8>)
    requires
        items_well_formed(elements),
        items_encodable(elements),
        items_basic(elements),
        ends_terms(tail),
    ensures
        tokens(render_items(elements) + tail) == item_toks(elements) + tokens(tail),
        ending(render_items(elements) + tail) == ending(tail),
    decreases elements, 1nat,
{
    if elements.len() == 0 {
        assert(render_items(elements) + tail =~= tail);
        assert(item_toks(elements) + tokens(tail) =~= tokens(tail));
    } else if elements.len() == 1 {
        lemma_tokens_of_render(elements[0], tail);
    } else {
        let first = elements[0];
        let others = elements.skip(1);
        let rest = render_items(others) + tail;
        let behind_first = separator() + rest;
        lemma_tokens_of_items(others, tail);
        lemma_tokens_separator(COMMA, rest, Tok::Comma);
        lemma_tokens_of_render(first, behind_first);
        assert(render_items(elements) + tail =~= render(first) + behind_first);
        assert(item_toks(elements) + tokens(tail) =~= toks(first) + (seq![Tok::Comma] + (
            item_toks(others) + tokens(tail))));
    }
}

/// The tokens of the text of one member.
proof fn lemma_tokens_of_member(key: Seq<char>, v: Json, tail: Seq<u8>)
    requires
        all_plain(key),
        in_basic_plane(key),
        well_formed(v),
        encodable(v),
        basic(v),
        ends_terms(tail),
    ensures
        tokens(member_text(key, render(v)) + tail) == entry_toks(key, toks(v)) + tokens(tail),
        ending(member_text(key, render(v)) + tail) == ending(tail),
    decreases v, 1nat,
{
    let body = render(v) + tail;
    let behind_key = key_separator() + body;
    lemma_tokens_of_render(v, tail);
    lemma_tokens_separator(COLON, body, Tok::Colon);
    lemma_lex_quoted(key, behind_key);
    lemma_tokens_cons(quoted(key) + behind_key, Tok::String(key), behind_key);
    assert(member_text(key, render(v)) + tail =~= quoted(key) + behind_key);
    assert(entry_toks(key, toks(v)) + tokens(tail) =~= seq![Tok::String(key)] + (seq![Tok::Colon]
        + (toks(v) + tokens(tail))));
}

/// The tokens of the texts of the members of an object.
pub proof fn lemma_tokens_of_members(entries: Members, tail: Seq<u8>)
    requires
        members_well_formed(entries),
        members_encodable(entries),
        members_basic(entries),
        ends_terms(tail),
    ensures
        tokens(render_members(entries) + tail) == member_toks(entries) + tokens(tail),
        ending(render_members(entries) + tail) == ending(tail),
    decreases entries, 2nat,
{
    if entries.len() == 0 {
        assert(render_members(entries) + tail =~= tail);
        assert(member_toks(entries) + tokens(tail) =~= tokens(tail));
    } else if entries.len() == 1 {
        lemma_tokens_of_member(entries[0].0, entries[0].1, tail);
    } else {
        let key = entries[0].0;
        let v = entries[0].1;
        let others = entries.skip(1);
        let rest = render_members(others) + tail;
        let behind_first = separator() + rest;
        lemma_tokens_of_members(others, tail);
        lemma_tokens_separator(COMMA, rest, Tok::Comma);
        lemma_tokens_of_member(key, v, behind_first);
        assert(render_members(entries) + tail =~= member_text(key, render(v)) + behind_first);
        assert(member_toks(entries) + tokens(tail) =~= entry_toks(key, toks(v)) + (seq![
            Tok::Comma,
        ] + (member_toks(others) + tokens(tail))));
    }
}

/// The tokens of a value start with a token that starts a value.
pub proof fn lemma_toks_head(j: Json)
    ensures
        toks(j).len() > 0,
        toks(j)[0] != Tok::RAngle,
        toks(j)[0] != Tok::RBrace,
        toks(j)[0] != Tok::Comma,
        toks(j)[0] != Tok::Colon,
{
}

/// The tokens of a value are read as that value, and what follows them is left.
pub proof fn lemma_value_of_toks(j: Json, rest: Seq<Tok>, end: Fault)
    requires
        well_formed(j),
    ensures
        value(toks(j) + rest, end) == Ok::<(Json, Seq<Tok>), Fault>((j, rest)),
    decreases j, 0nat,
{
    let ts = toks(j) + rest;
    lemma_value_step(ts, end);
    lemma_toks_head(j);
    assert(ts[0] == toks(j)[0]);
    match j {
        Json::Array(elements) => {
            lemma_items_of_toks(elements, rest, end);
            assert(ts.skip(1) =~= item_toks(elements) + seq![Tok::RAngle] + rest);
        },
        Json::Object(entries) => {
            lemma_members_of_toks(entries, rest, end);
            lemma_collect_of_distinct(entries);
            assert(ts.skip(1) =~= member_toks(entries) + seq![Tok::RBrace] + rest);
        },
        _ => {
            assert(ts.skip(1) =~= rest);
        },
    }
}

/// The tokens of the elements and the closing bracket are read as those elements.
pub proof fn lemma_items_of_toks(elements: Seq<Json>, rest: Seq<Tok>, end: Fault)
    requires
        items_well_formed(elements),
    ensures
        items(item_toks(elements) + seq![Tok::RAngle] + rest, end) == Ok::<
            (Seq<Json>, Seq<Tok>),
            Fault,
        >((elements, rest)),
    decreases elements, 1nat,
{
    let ts = item_toks(elements) + seq![Tok::RAngle] + rest;
    lemma_items_step(ts, end);
    if elements.len() == 0 {
        assert(ts[0] == Tok::RAngle);
        assert(ts.skip(1) =~= rest);
        assert(elements =~= Seq::<Json>::empty());
    } else {
        let first = elements[0];
        lemma_toks_head(first);
        if elements.len() == 1 {
            let after = seq![Tok::RAngle] + rest;
            lemma_value_of_toks(first, after, end);
            assert(ts =~= toks(first) + after);
            assert(ts[0] == toks(first)[0]);
            assert(after.skip(1) =~= rest);
            assert(elements =~= seq![first]);
        } else {
            let others = elements.skip(1);
            let more = item_toks(others) + seq![Tok::RAngle] + rest;
            let after = seq![Tok::Comma] + more;
            lemma_value_of_toks(first, after, end);
            lemma_items_of_toks(others, rest, end);
            assert(ts =~= toks(first) + after);
            assert(ts[0] == toks(first)[0]);
            assert(after.skip(1) =~= more);
            assert(elements =~= seq![first] + others);
        }
    }
}

/// The tokens of the members and the closing brace are read as those members.
pub proof fn lemma_members_of_toks(entries: Members, rest: Seq<Tok>, end: Fault)
    requires
        members_well_formed(entries),
    ensures
        members(member_toks(entries) + seq![Tok::RBrace] + rest, end) == Ok::<
            (Members, Seq<Tok>),
            Fault,
        >((entries, rest)),
    decreases entries, 1nat,
{
    let ts = member_toks(entries) + seq![Tok::RBrace] + rest;
    lemma_members_step(ts, end);
    if entries.len() == 0 {
        assert(ts[0] == Tok::RBrace);
        assert(ts.skip(1) =~= rest);
        assert(entries =~= Seq::<(Seq<char>, Json)>::empty());
    } else {
        let key = entries[0].0;
        let v = entries[0].1;
        let head = seq![Tok::String(key), Tok::Colon];
        if entries.len() == 1 {
            let after = seq![Tok::RBrace] + rest;
            lemma_value_of_toks(v, after, end);
            assert(ts =~= head + (toks(v) + after));
            assert(ts[0] == Tok::String(key) && ts[1] == Tok::Colon);
            assert(ts.skip(2) =~= toks(v) + after);
            assert(after.skip(1) =~= rest);
            assert(entries =~= seq![(key, v)]);
        } else {
            let others = entries.skip(1);
            let more = member_toks(others) + seq![Tok::RBrace] + rest;
            let after = seq![Tok::Comma] + more;
            lemma_value_of_toks(v, after, end);
            lemma_members_of_toks(others, rest, end);
            assert(ts =~= head + (toks(v) + after));
            assert(ts[0] == Tok::String(key) && ts[1] == Tok::Colon);
            assert(ts.skip(2) =~= toks(v) + after);
            assert(after.skip(1) =~= more);
            assert(entries =~= seq![(key, v)] + others);
        }
    }
}

/// The text of a value decodes to that value also where bytes follow it, as long as
/// the first of them is whitespace or a delimiter.
pub proof fn round_trip_before(j: Json, tail: Seq<u8>)
    requires
        well_formed(j),
        encodable(j),
        basic(j),
        ends_terms(tail),
    ensures
        decode(render(j) + tail) == Ok::<Json, Fault>(j),
{
    lemma_tokens_of_render(j, tail);
    lemma_value_of_toks(j, tokens(tail), ending(tail));
}

/// Round trip: the text of a value decodes to that value.
///
/// This holds of every value that is well formed, whose strings hold no ASCII control
/// character without an escape, and whose strings lie in the basic plane. A character
/// above `FFFF` is encoded with five or six digits, of which the decoder reads four.
/// The members of an object come back in their order.
pub proof fn round_trip(j: Json)
    requires
        well_formed(j),
        encodable(j),
        basic(j),
    ensures
        decode(render(j)) == Ok::<Json, Fault>(j),
{
    round_trip_before(j, Seq::empty());
    assert(render(j) + Seq::<u8>::empty() =~= render(j));
}

/// Every byte of `s` is an ASCII character.
pub open spec fn is_ascii(s: Seq<u8>) -> bool {
    forall|i: int| 0 <= i < s.len() ==> (#[trigger] s[i]) < 0x80
}

/// What stands for a character consists of ASCII characters.
proof fn lemma_escape_ascii(c: char)
    ensures
        is_ascii(escape(c)),
{
    reveal(escape);
}

/// What stands for a text consists of ASCII characters.
proof fn lemma_escape_all_ascii(text: Seq<char>)
    ensures
        is_ascii(escape_all(text)),
    decreases text.len(),
{
    if text.len() > 0 {
        lemma_escape_ascii(text[0]);
        lemma_escape_all_ascii(text.skip(1));
    }
}

/// An encoded string consists of ASCII characters.
proof fn lemma_quoted_ascii(text: Seq<char>)
    ensures
        is_ascii(quoted(text)),
{
    lemma_escape_all_ascii(text);
}

/// The text of a well-formed value consists of ASCII characters.
pub proof fn lemma_render_ascii(j: Json)
    requires
        well_formed(j),
    ensures
        is_ascii(render(j)),
    decreases j, 0nat,
{
    match j {
        Json::String(text) => {
            lemma_quoted_ascii(text);
        },
        Json::Number(literal) => {
            lemma_literal_bytes(literal);
            assert forall|i: int| 0 <= i < literal.len() implies (#[trigger] literal[i])
                < 0x80 by {
                assert(is_literal_byte(literal[i]));
            }
        },
        Json::Array(elements) => {
            lemma_render_items_ascii(elements);
        },
        Json::Object(entries) => {
            lemma_render_members_ascii(entries);
        },
        _ => {},
    }
}

/// The texts of well-formed elements consist of ASCII characters.
proof fn lemma_render_items_ascii(elements: Seq<Json>)
    requires
        items_well_formed(elements),
    ensures
        is_ascii(render_items(elements)),
    decreases elements, 1nat,
{
    if elements.len() > 0 {
        lemma_render_ascii(elements[0]);
        if elements.len() > 1 {
            lemma_render_items_ascii(elements.skip(1));
        }
    }
}

/// The texts of well-formed members consist of ASCII characters.
proof fn lemma_render_members_ascii(entries: Members)
    requires
        members_well_formed(entries),
    ensures
        is_ascii(render_members(entries)),
    decreases entries, 1nat,
{
    if entries.len() > 0 {
        lemma_quoted_ascii(entries[0].0);
        lemma_render_ascii(entries[0].1);
        if entries.len() > 1 {
            lemma_render_members_ascii(entries.skip(1));
        }
    }
}

/// The text of a well-formed value, taken as a string, has the bytes of that text as
/// its UTF-8 encoding.
pub proof fn lemma_text_of_render(j: Json)
    requires
        well_formed(j),
    ensures
        is_ascii_chars(as_text(render(j))),
        encode_utf8(as_text(render(j))) == render(j),
{
    lemma_render_ascii(j);
    let bytes = render(j);
    let text = as_text(bytes);
    assert(is_ascii_chars(text)) by {
        assert forall|i: int| 0 <= i < text.len() implies '\0' <= #[trigger] text[i]
            <= '\u{7f}' by {
            assert(bytes[i] < 0x80);
        }
    }
    is_ascii_chars_encode_utf8(text);
    assert(encode_utf8(text) =~= bytes) by {
        assert forall|i: int| 0 <= i < bytes.len() implies encode_utf8(text)[i] == bytes[i] by {
            assert(text[i] as u8 == encode_utf8(text)[i]);
        }
    }
}

/// A well-formed value is the same as itself.
pub proof fn lemma_same_reflexive(j: Json)
    requires
        well_formed(j),
    ensures
        same(j, j),
    decreases j, 0nat,
{
    match j {
        Json::Array(elements) => {
            lemma_same_items_reflexive(elements);
        },
        Json::Object(entries) => {
            assert(entries.skip(0) =~= entries);
            lemma_within_self(entries, 0);
        },
        _ => {},
    }
}

/// Well-formed elements are the same as themselves.
proof fn lemma_same_items_reflexive(elements: Seq<Json>)
    requires
        items_well_formed(elements),
    ensures
        same_items(elements, elements),
    decreases elements, 0nat,
{
    if elements.len() > 0 {
        lemma_same_reflexive(elements[0]);
        lemma_same_items_reflexive(elements.skip(1));
    }
}

/// Each member of an object from position `i` on has its key in the object, with the
/// same value.
proof fn lemma_within_self(entries: Members, i: int)
    requires
        distinct_keys(entries),
        members_well_formed(entries.skip(i)),
        0 <= i <= entries.len(),
    ensures
        within(entries.skip(i), entries),
    decreases entries, entries.len() - i,
{
    if i < entries.len() {
        let rest = entries.skip(i);
        assert(rest[0] == entries[i]);
        assert(rest.skip(1) =~= entries.skip(i + 1));
        lemma_key_index_is(entries, entries[i].0, i);
        lemma_same_reflexive(entries[i].1);
        lemma_within_self(entries, i + 1);
    }
}

/// Round trip, with the comparison that sets the order of the members aside: what
/// the text of a value decodes to is the same as the value.
pub proof fn round_trip_same(j: Json)
    requires
        well_formed(j),
        encodable(j),
        basic(j),
    ensures
        decode(render(j)) matches Ok(back) && same(back, j),
{
    round_trip(j);
    lemma_same_reflexive(j);
}

} // verus!
