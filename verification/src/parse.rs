use vstd::prelude::*;
use vstd::slice::slice_to_vec;
use vstd::string::StringExecFns;
use vstd::utf8::decode_utf8;
use crate::lexical::{
    after_tokens, classify, code_point, ending, hex_value, lemma_after_one_token,
    lemma_after_tokens_add, lemma_plain_run, lemma_tokens_step, lex, scan_escape, scan_string,
    term_end, tokens, trim, BACKSLASH, COLON, COMMA, LBRACE, LBRACKET, QUOTE, RBRACE, RBRACKET,
    SLASH,
};
use crate::model::{collect, lemma_collect_push, well_formed, Fault, Json, Members, Tok};
use crate::number::{as_text, Number};
use crate::render::{encodable, render};
use crate::source::{after_first, first_byte, ByteSource};
use crate::syntax::{
    decode, items, lemma_items_step, lemma_members_step, lemma_value_consumes, lemma_value_step,
    members, value, with_items, with_members,
};
use crate::text::text_of_utf8;
use crate::types::{elements, JSONError, Object, Token, Value};
use crate::validity::decoded_is_well_formed;

verus! {

/// What was scanned so far put in front of what the rest of a string gives.
pub open spec fn with_text(
    done: Seq<char>,
    rest: Result<(Seq<char>, Seq<u8>), Fault>,
) -> Result<(Seq<char>, Seq<u8>), Fault> {
    match rest {
        Err(f) => Err(f),
        Ok((text, after)) => Ok((done + text, after)),
    }
}

/// The first token of `ts`, or the fault `end` behind the last one.
pub open spec fn next(ts: Seq<Tok>, end: Fault) -> Result<Tok, Fault> {
    if ts.len() > 0 {
        Ok(ts[0])
    } else {
        Err(end)
    }
}

/// What `members` gives once a member was read in front of it.
proof fn lemma_member_read(
    raw: Members,
    ts: Seq<Tok>,
    end: Fault,
    key: Seq<char>,
    v: Json,
    after: Seq<Tok>,
)
    requires
        ts.len() > 1,
        ts[0] == Tok::String(key),
        ts[1] == Tok::Colon,
        value(ts.skip(2), end) == Ok::<(Json, Seq<Tok>), Fault>((v, after)),
    ensures
        after.len() < ts.len(),
        with_members(raw, members(ts, end)) == if after.len() == 0 {
            Err(end)
        } else if after[0] == Tok::RBrace {
            Ok((raw.push((key, v)), after.skip(1)))
        } else if after[0] == Tok::Comma {
            with_members(raw.push((key, v)), members(after.skip(1), end))
        } else {
            Err(Fault::ExpectedCommaOrBrace)
        },
{
    lemma_members_step(ts, end);
    lemma_value_consumes(ts.skip(2), end);
    let entry = (key, v);
    if after.len() > 0 {
        if after[0] == Tok::RBrace {
            assert(raw + seq![entry] =~= raw.push(entry));
        } else if after[0] == Tok::Comma {
            if let Ok((more, last)) = members(after.skip(1), end) {
                assert(raw + (seq![entry] + more) =~= raw.push(entry) + more);
            }
        }
    }
}

/// What `items` gives once an element was read in front of it.
proof fn lemma_item_read(done: Seq<Json>, ts: Seq<Tok>, end: Fault, v: Json, after: Seq<Tok>)
    requires
        ts.len() > 0,
        ts[0] != Tok::RAngle,
        value(ts, end) == Ok::<(Json, Seq<Tok>), Fault>((v, after)),
    ensures
        after.len() < ts.len(),
        with_items(done, items(ts, end)) == if after.len() == 0 {
            Err(end)
        } else if after[0] == Tok::RAngle {
            Ok((done.push(v), after.skip(1)))
        } else if after[0] == Tok::Comma {
            with_items(done.push(v), items(after.skip(1), end))
        } else {
            Err(Fault::ExpectedCommaOrBracket)
        },
{
    lemma_items_step(ts, end);
    lemma_value_consumes(ts, end);
    if after.len() > 0 {
        if after[0] == Tok::RAngle {
            assert(done + seq![v] =~= done.push(v));
        } else if after[0] == Tok::Comma {
            if let Ok((more, last)) = items(after.skip(1), end) {
                assert(done + (seq![v] + more) =~= done.push(v) + more);
            }
        }
    }
}

/// The number that a hexadecimal digit stands for.
fn hex_digit(b: u8) -> (r: Option<u32>)
    ensures
        match hex_value(b) {
            Some(v) => r == Some(v as u32) && 0 <= v < 16,
            None => r is None,
        },
{
    if 0x30 <= b && b <= 0x39 {
        Some((b - 0x30) as u32)
    } else if 0x61 <= b && b <= 0x66 {
        Some((b - 0x61 + 10) as u32)
    } else if 0x41 <= b && b <= 0x46 {
        Some((b - 0x41 + 10) as u32)
    } else {
        None
    }
}

/// The number that four bytes spell in hexadecimal, where each of them is a
/// hexadecimal digit.
fn hex_code(h: &Vec<u8>) -> (r: Option<u32>)
    requires
        h.len() == 4,
    ensures
        match code_point(h@) {
            Some(n) => r == Some(n as u32) && 0 <= n <= 0xffff,
            None => r is None,
        },
{
    let a = hex_digit(h[0]);
    let b = hex_digit(h[1]);
    let c = hex_digit(h[2]);
    let d = hex_digit(h[3]);
    match (a, b, c, d) {
        (Some(a), Some(b), Some(c), Some(d)) => Some(a * 4096 + b * 256 + c * 16 + d),
        _ => None,
    }
}

/// Whether the two slices hold the same bytes.
fn same_bytes(a: &[u8], b: &[u8]) -> (r: bool)
    ensures
        r == (a@ == b@),
{
    if a.len() != b.len() {
        return false;
    }
    let mut i: usize = 0;
    while i < a.len()
        invariant
            a.len() == b.len(),
            i <= a.len(),
            forall|j: int| 0 <= j < i ==> a@[j] == b@[j],
        decreases a.len() - i,
    {
        if a[i] != b[i] {
            return false;
        }
        i += 1;
    }
    assert(a@ =~= b@);
    true
}

/// The token that a bare lexeme is.
fn classify_term(t: &[u8]) -> (r: Result<Token, JSONError>)
    ensures
        match classify(t@) {
            Ok(tok) => r matches Ok(x) && x@ == tok,
            Err(f) => r matches Err(e) && e@ == f.message(),
        },
{
    let word_true: [u8; 4] = [0x74, 0x72, 0x75, 0x65];
    let word_false: [u8; 5] = [0x66, 0x61, 0x6c, 0x73, 0x65];
    let word_null: [u8; 4] = [0x6e, 0x75, 0x6c, 0x6c];
    assert(word_true@ =~= crate::lexical::word_true());
    assert(word_false@ =~= crate::lexical::word_false());
    assert(word_null@ =~= crate::lexical::word_null());
    if same_bytes(t, word_true.as_slice()) {
        Ok(Token::Boolean(true))
    } else if same_bytes(t, word_false.as_slice()) {
        Ok(Token::Boolean(false))
    } else if same_bytes(t, word_null.as_slice()) {
        Ok(Token::Null)
    } else {
        match Number::from_bytes(t) {
            Some(n) => Ok(Token::Number(n)),
            None => match text_of_utf8(slice_to_vec(t)) {
                Ok(_) => Err(JSONError::new("invalid float literal")),
                Err(m) => Err(JSONError::from_text(m)),
            },
        }
    }
}

/// A reader of tokens and values from a source of bytes, with one token of lookahead.
struct Parser<S: ByteSource> {
    source: S,
    cache: Option<Result<Token, JSONError>>,
    /// The input from which the token in `cache` was read.
    before: Ghost<Seq<u8>>,
}

impl<S: ByteSource> Parser<S> {
    /// The input that is still to be read: that of the source, and before it the bytes
    /// of the token that was looked at and not yet taken.
    spec fn input(&self) -> Seq<u8> {
        if self.cache is Some {
            self.before@
        } else {
            self.source.remaining()
        }
    }

    /// The token in the cache is the next token of the input.
    spec fn wf(&self) -> bool {
        match self.cache {
            None => true,
            Some(Ok(t)) => lex(self.before@) == Ok::<(Tok, Seq<u8>), Fault>(
                (t@, self.source.remaining()),
            ),
            Some(Err(e)) => lex(self.before@) matches Err(f) && e@ == f.message(),
        }
    }

    /// The tokens that are still to be read.
    spec fn stream(&self) -> Seq<Tok> {
        tokens(self.input())
    }

    /// The fault behind the last token.
    spec fn end(&self) -> Fault {
        ending(self.input())
    }

    /// The parser stands behind the tokens that were taken since it stood as `from`,
    /// with nothing in the cache: the source has given the bytes of those tokens, the
    /// whitespace in front of them, and no byte more.
    spec fn advanced(&self, from: &Self) -> bool {
        &&& self.cache is None
        &&& self.stream().len() <= from.stream().len()
        &&& self.source.remaining() == after_tokens(
            from.input(),
            from.stream().len() - self.stream().len(),
        )
    }

    /// Both parsers have the same token in the cache, read from the same input.
    spec fn same_cache(&self, other: &Self) -> bool {
        self.cache == other.cache && self.before == other.before
    }

    /// A parser that has read nothing of `reader` yet.
    fn new(reader: S) -> (p: Self)
        ensures
            p.wf(),
            p.cache is None,
            p.source.remaining() == reader.remaining(),
            p.input() == reader.remaining(),
    {
        Parser { source: reader, cache: None, before: Ghost(Seq::empty()) }
    }

    /// The next byte, which stays in the source; the end of the input is an error.
    fn current(&self) -> (r: Result<u8, JSONError>)
        ensures
            match first_byte(self.source.remaining()) {
                Some(b) => r == Ok::<u8, JSONError>(b),
                None => r matches Err(e) && e@ == Fault::Eof.message(),
            },
    {
        match self.source.current() {
            Some(b) => Ok(b),
            None => Err(JSONError::new("EOF")),
        }
    }

    /// Takes the next byte; the end of the input is an error.
    fn read_byte(&mut self) -> (r: Result<u8, JSONError>)
        ensures
            match first_byte(old(self).source.remaining()) {
                Some(b) => r == Ok::<u8, JSONError>(b),
                None => r matches Err(e) && e@ == Fault::Eof.message(),
            },
            final(self).source.remaining() == after_first(old(self).source.remaining()),
            final(self).same_cache(old(self)),
    {
        match self.source.advance() {
            Some(b) => Ok(b),
            None => Err(JSONError::new("EOF")),
        }
    }

    /// Whether the byte is a space, a line feed, a carriage return or a tab.
    fn is_whitespace(b: u8) -> (r: bool)
        ensures
            r == crate::lexical::is_whitespace(b),
    {
        b == 0x20 || b == 0x0a || b == 0x0d || b == 0x09
    }

    /// Whether the byte is a token by itself.
    fn is_delimiter(b: u8) -> (r: bool)
        ensures
            r == crate::lexical::is_delimiter(b),
    {
        b == LBRACE || b == RBRACE || b == LBRACKET || b == RBRACKET || b == COLON || b == COMMA
    }

    /// Takes the whitespace that the input starts with.
    fn skip_whitespace(&mut self) -> (r: Result<(), JSONError>)
        ensures
            r is Ok,
            final(self).source.remaining() == trim(old(self).source.remaining()),
            final(self).same_cache(old(self)),
    {
        loop
            invariant
                trim(self.source.remaining()) == trim(old(self).source.remaining()),
                self.same_cache(old(self)),
            ensures
                self.source.remaining() == trim(old(self).source.remaining()),
                self.same_cache(old(self)),
            decreases self.source.remaining().len(),
        {
            match self.current() {
                Ok(b) => {
                    if !Self::is_whitespace(b) {
                        break ;
                    }
                    let _ = self.read_byte();
                },
                Err(_) => {
                    break ;
                },
            }
        }
        Ok(())
    }

    /// Reads what follows a backslash and returns the character that the escape
    /// stands for.
    fn read_escape(&mut self) -> (r: Result<char, JSONError>)
        ensures
            match scan_escape(old(self).source.remaining()) {
                Ok((c, n)) => r == Ok::<char, JSONError>(c) && final(self).source.remaining()
                    == old(self).source.remaining().skip(n),
                Err(f) => r matches Err(e) && e@ == f.message(),
            },
            final(self).same_cache(old(self)),
    {
        let ghost s = self.source.remaining();
        let b = match self.read_byte() {
            Ok(b) => b,
            Err(e) => {
                return Err(e);
            },
        };
        if b == QUOTE || b == BACKSLASH || b == SLASH {
            Ok(b as char)
        } else if b == 0x62 {
            Ok('\u{8}')
        } else if b == 0x66 {
            Ok('\u{c}')
        } else if b == 0x6e {
            Ok('\n')
        } else if b == 0x72 {
            Ok('\r')
        } else if b == 0x74 {
            Ok('\t')
        } else if b == 0x75 {
            assert(seq![0x75u8] + s.skip(1) =~= s);
            self.read_code_point()
        } else {
            Err(JSONError::new("expected \", \\, /, b, f, n, r, t or u"))
        }
    }

    /// Reads the four bytes after `\u` and returns the character that they name.
    fn read_code_point(&mut self) -> (r: Result<char, JSONError>)
        ensures
            ({
                let s = seq![0x75u8] + old(self).source.remaining();
                match scan_escape(s) {
                    Ok((c, n)) => r == Ok::<char, JSONError>(c) && final(self).source.remaining()
                        == s.skip(n),
                    Err(f) => r matches Err(e) && e@ == f.message(),
                }
            }),
            final(self).same_cache(old(self)),
    {
        let ghost s = seq![0x75u8] + old(self).source.remaining();
        let mut hex: Vec<u8> = Vec::new();
        let mut i: usize = 0;
        while i < 4
            invariant
                i <= 4,
                hex.len() == i,
                i <= old(self).source.remaining().len(),
                hex@ == old(self).source.remaining().subrange(0, i as int),
                self.source.remaining() == old(self).source.remaining().skip(i as int),
                self.same_cache(old(self)),
            decreases 4 - i,
        {
            match self.read_byte() {
                Ok(b) => {
                    hex.push(b);
                    assert(hex@ =~= old(self).source.remaining().subrange(0, i + 1));
                    assert(self.source.remaining() =~= old(self).source.remaining().skip(i + 1));
                },
                Err(e) => {
                    return Err(e);
                },
            }
            i += 1;
        }
        assert(hex@ =~= s.subrange(1, 5));
        assert(self.source.remaining() =~= s.skip(5));
        match hex_code(&hex) {
            Some(code) => match char::from_u32(code) {
                Some(c) => Ok(c),
                None => Err(JSONError::new("invalid unicode code point")),
            },
            None => match text_of_utf8(hex) {
                Ok(_) => Err(JSONError::new("invalid digit found in string")),
                Err(m) => Err(JSONError::from_text(m)),
            },
        }
    }

    /// Reads a string up to its closing quote, the opening quote being taken already.
    /// The bytes between two escapes are collected and read as UTF-8.
    fn read_string(&mut self) -> (r: Result<String, JSONError>)
        ensures
            match scan_string(old(self).source.remaining()) {
                Ok((text, rest)) => r matches Ok(s) && s@ == text && final(self).source.remaining()
                    == rest,
                Err(f) => r matches Err(e) && e@ == f.message(),
            },
            final(self).same_cache(old(self)),
    {
        let mut s = String::new();
        let mut run: Vec<u8> = Vec::new();
        assert(run@ + self.source.remaining() =~= self.source.remaining());
        loop
            invariant_except_break
                forall|i: int| 0 <= i < run.len() ==> run@[i] != QUOTE && run@[i] != BACKSLASH,
                with_text(s@, scan_string(run@ + self.source.remaining())) == scan_string(
                    old(self).source.remaining(),
                ),
            invariant
                self.same_cache(old(self)),
            ensures
                scan_string(old(self).source.remaining()) == Ok::<(Seq<char>, Seq<u8>), Fault>(
                    (s@, self.source.remaining()),
                ),
                self.same_cache(old(self)),
            decreases self.source.remaining().len(),
        {
            let ghost rem = self.source.remaining();
            let ghost done = s@;
            let ghost held = run@;
            proof {
                lemma_plain_run(held, rem);
            }
            let b = match self.read_byte() {
                Ok(b) => b,
                Err(e) => {
                    return Err(e);
                },
            };
            if b == QUOTE || b == BACKSLASH {
                let piece = match text_of_utf8(run) {
                    Ok(piece) => piece,
                    Err(m) => {
                        return Err(JSONError::from_text(m));
                    },
                };
                s.append(piece.as_str());
                run = Vec::new();
                if b == QUOTE {
                    break ;
                }
                match self.read_escape() {
                    Ok(c) => {
                        s.push(c);
                        proof {
                            let k = scan_escape(rem.skip(1))->Ok_0.1;
                            let next = self.source.remaining();
                            assert(next =~= (held + rem).skip(held.len() as int + 1 + k));
                            assert(run@ + next =~= next);
                            if let Ok((text, rest)) = scan_string(next) {
                                assert(done + (decode_utf8(held) + seq![c] + text) =~= (done
                                    + decode_utf8(held)).push(c) + text);
                            }
                        }
                    },
                    Err(e) => {
                        return Err(e);
                    },
                }
            } else {
                run.push(b);
                assert(run@ + self.source.remaining() =~= held + rem);
            }
        }
        Ok(s)
    }

    /// Reads the rest of the bare lexeme that starts with `b`, up to whitespace, a
    /// delimiter or the end of the input, and returns the token that the lexeme is.
    fn read_term(&mut self, b: u8) -> (r: Result<Token, JSONError>)
        ensures
            ({
                let t = seq![b] + old(self).source.remaining();
                let n = term_end(t, 1);
                &&& final(self).source.remaining() == t.skip(n)
                &&& match classify(t.subrange(0, n)) {
                    Ok(tok) => r matches Ok(x) && x@ == tok,
                    Err(f) => r matches Err(e) && e@ == f.message(),
                }
            }),
            final(self).same_cache(old(self)),
    {
        let ghost t = seq![b] + old(self).source.remaining();
        let mut buf: Vec<u8> = Vec::new();
        buf.push(b);
        assert(buf@ =~= t.subrange(0, 1));
        assert(self.source.remaining() =~= t.skip(1));
        loop
            invariant
                1 <= buf.len() <= t.len(),
                buf@ == t.subrange(0, buf.len() as int),
                self.source.remaining() == t.skip(buf.len() as int),
                term_end(t, buf.len() as int) == term_end(t, 1),
                self.same_cache(old(self)),
            ensures
                buf.len() == term_end(t, 1),
                buf@ == t.subrange(0, buf.len() as int),
                self.source.remaining() == t.skip(buf.len() as int),
                self.same_cache(old(self)),
            decreases self.source.remaining().len(),
        {
            let ghost k = buf.len() as int;
            match self.current() {
                Ok(c) => {
                    if Self::is_whitespace(c) || Self::is_delimiter(c) {
                        break ;
                    }
                    buf.push(c);
                    // a term may be all there is, so the end of the input is in order
                    let _ = self.read_byte();
                    assert(buf@ =~= t.subrange(0, k + 1));
                    assert(self.source.remaining() =~= t.skip(k + 1));
                },
                Err(_) => {
                    break ;
                },
            }
        }
        classify_term(buf.as_slice())
    }

    /// Reads the next token into the cache, where the next `read_token` finds it.
    fn peek_token(&mut self)
        requires
            old(self).wf(),
        ensures
            final(self).wf(),
            final(self).input() == old(self).input(),
            match next(old(self).stream(), old(self).end()) {
                Ok(t) => final(self).cache matches Some(Ok(x)) && x@ == t,
                Err(f) => final(self).cache matches Some(Err(e)) && e@ == f.message(),
            },
            old(self).cache is Some ==> final(self).cache == old(self).cache
                && final(self).source.remaining() == old(self).source.remaining(),
    {
        let ghost input = self.input();
        let t = self.read_token();
        self.cache = Some(t);
        self.before = Ghost(input);
    }

    /// Takes the next token: the one in the cache if there is one, else the one that
    /// the input starts with.
    fn read_token(&mut self) -> (r: Result<Token, JSONError>)
        requires
            old(self).wf(),
        ensures
            final(self).wf(),
            final(self).cache is None,
            match lex(old(self).input()) {
                Ok((t, rest)) => r matches Ok(x) && x@ == t && final(self).input() == rest,
                Err(f) => r matches Err(e) && e@ == f.message(),
            },
            match next(old(self).stream(), old(self).end()) {
                Ok(t) => r matches Ok(x) && x@ == t && final(self).stream()
                    == old(self).stream().skip(1) && final(self).end() == old(self).end(),
                Err(f) => r matches Err(e) && e@ == f.message(),
            },
            r is Ok ==> final(self).input() == after_tokens(old(self).input(), 1),
            old(self).cache matches Some(cached) ==> r == cached && final(self).source.remaining()
                == old(self).source.remaining(),
    {
        proof {
            reveal(lex);
            lemma_tokens_step(self.input());
            lemma_after_one_token(self.input());
        }
        if let Some(t) = self.cache.take() {
            return t;
        }
        if let Err(e) = self.skip_whitespace() {
            return Err(e);
        }
        let ghost t = self.source.remaining();
        let read_byte = match self.read_byte() {
            Ok(b) => b,
            Err(e) => {
                return Err(e);
            },
        };
        if read_byte == QUOTE {
            match self.read_string() {
                Ok(s) => Ok(Token::String(s)),
                Err(e) => Err(e),
            }
        } else if read_byte == LBRACKET {
            Ok(Token::LAngle)
        } else if read_byte == RBRACKET {
            Ok(Token::RAngle)
        } else if read_byte == LBRACE {
            Ok(Token::LBrace)
        } else if read_byte == RBRACE {
            Ok(Token::RBrace)
        } else if read_byte == COMMA {
            Ok(Token::Comma)
        } else if read_byte == COLON {
            Ok(Token::Colon)
        } else {
            assert(seq![read_byte] + t.skip(1) =~= t);
            self.read_term(read_byte)
        }
    }

    /// Reads a key, the colon after it and a value.
    fn read_member(&mut self) -> (r: Result<(String, Value), JSONError>)
        requires
            old(self).wf(),
            old(self).stream().len() > 0,
            old(self).stream()[0] != Tok::RBrace,
        ensures
            final(self).wf(),
            ({
                let ts = old(self).stream();
                let end = old(self).end();
                if !(ts[0] is String) {
                    r matches Err(e) && e@ == Fault::ExpectedString.message()
                } else if ts.len() == 1 {
                    r matches Err(e) && e@ == end.message()
                } else if ts[1] != Tok::Colon {
                    r matches Err(e) && e@ == Fault::ExpectedColon.message()
                } else {
                    match value(ts.skip(2), end) {
                        Ok((j, rest)) => r matches Ok((k, v)) && k@ == ts[0]->String_0 && v@ == j
                            && final(self).stream() == rest && final(self).end() == end
                            && final(self).advanced(old(self)),
                        Err(f) => r matches Err(e) && e@ == f.message(),
                    }
                }
            }),
        decreases old(self).stream().len(), 0nat,
    {
        let ghost ts = self.stream();
        let ghost start = self.input();
        let k = match self.read_token() {
            Ok(Token::String(s)) => s,
            Ok(_) => {
                return Err(JSONError::new("expected string"));
            },
            Err(e) => {
                return Err(e);
            },
        };
        match self.read_token() {
            Ok(Token::Colon) => {
                // ok
            },
            Ok(_) => {
                return Err(JSONError::new("expected colon"));
            },
            Err(e) => {
                return Err(e);
            },
        }
        assert(ts.skip(1).skip(1) =~= ts.skip(2));
        match self.read_value() {
            Ok(v) => {
                proof {
                    lemma_after_tokens_add(start, 1, 1);
                    lemma_after_tokens_add(start, 2, ts.len() - 2 - self.stream().len());
                }
                Ok((k, v))
            },
            Err(e) => Err(e),
        }
    }

    /// Reads the members of an object up to its closing brace, the opening brace
    /// being taken already.
    fn read_object(&mut self) -> (r: Result<Object, JSONError>)
        requires
            old(self).wf(),
        ensures
            final(self).wf(),
            match members(old(self).stream(), old(self).end()) {
                Ok((raw, rest)) => r matches Ok(o) && o@ == collect(raw) && final(self).stream()
                    == rest && final(self).end() == old(self).end()
                    && final(self).advanced(old(self)),
                Err(f) => r matches Err(e) && e@ == f.message(),
            },
        decreases old(self).stream().len(), 1nat,
    {
        let mut d = Object::new();
        let ghost mut raw: Members = Seq::empty();
        let ghost end = self.end();
        assert(raw + Seq::<(Seq<char>, Json)>::empty() =~= raw);
        loop
            invariant_except_break
                with_members(raw, members(self.stream(), end)) == members(
                    old(self).stream(),
                    end,
                ),
            invariant
                self.wf(),
                self.end() == end,
                end == old(self).end(),
                d@ == collect(raw),
                self.stream().len() <= old(self).stream().len(),
                self.input() == after_tokens(
                    old(self).input(),
                    old(self).stream().len() - self.stream().len(),
                ),
            ensures
                members(old(self).stream(), end) == Ok::<(Members, Seq<Tok>), Fault>(
                    (raw, self.stream()),
                ),
                self.cache is None,
            decreases self.stream().len(),
        {
            let ghost ts = self.stream();
            let ghost start = old(self).input();
            let ghost taken = old(self).stream().len() - ts.len();
            proof {
                lemma_members_step(ts, end);
                lemma_after_one_token(start);
            }
            self.peek_token();
            match &self.cache {
                Some(Ok(Token::RBrace)) => {
                    let _ = self.read_token();
                    assert(raw + Seq::<(Seq<char>, Json)>::empty() =~= raw);
                    proof {
                        lemma_after_tokens_add(start, taken, 1);
                    }
                    break ;
                },
                Some(Err(err)) => {
                    return Err(err.clone());
                },
                _ => {},
            }
            let (k, v) = match self.read_member() {
                Ok(member) => member,
                Err(e) => {
                    return Err(e);
                },
            };
            let ghost key = k@;
            let ghost j = v@;
            let ghost after = self.stream();
            proof {
                lemma_member_read(raw, ts, end, key, j, after);
                lemma_collect_push(raw, key, j);
                lemma_after_tokens_add(start, taken, ts.len() - after.len());
                lemma_after_tokens_add(start, taken + ts.len() - after.len(), 1);
            }
            d.insert(k, v);
            match self.read_token() {
                Ok(Token::Comma) => {
                    proof {
                        raw = raw.push((key, j));
                    }
                },
                Ok(Token::RBrace) => {
                    proof {
                        raw = raw.push((key, j));
                    }
                    break ;
                },
                Ok(_) => {
                    return Err(JSONError::new("expected comma or }"));
                },
                Err(e) => {
                    return Err(e);
                },
            }
        }
        Ok(d)
    }

    /// Reads the elements of an array up to its closing bracket, the opening bracket
    /// being taken already.
    fn read_array(&mut self) -> (r: Result<Vec<Value>, JSONError>)
        requires
            old(self).wf(),
        ensures
            final(self).wf(),
            match items(old(self).stream(), old(self).end()) {
                Ok((found, rest)) => r matches Ok(arr) && elements(arr@) == found
                    && final(self).stream() == rest && final(self).end() == old(self).end()
                    && final(self).advanced(old(self)),
                Err(f) => r matches Err(e) && e@ == f.message(),
            },
        decreases old(self).stream().len(), 1nat,
    {
        let mut arr: Vec<Value> = Vec::new();
        let ghost end = self.end();
        assert(elements(arr@) + Seq::<Json>::empty() =~= elements(arr@));
        loop
            invariant_except_break
                with_items(elements(arr@), items(self.stream(), end)) == items(
                    old(self).stream(),
                    end,
                ),
            invariant
                self.wf(),
                self.end() == end,
                end == old(self).end(),
                self.stream().len() <= old(self).stream().len(),
                self.input() == after_tokens(
                    old(self).input(),
                    old(self).stream().len() - self.stream().len(),
                ),
            ensures
                items(old(self).stream(), end) == Ok::<(Seq<Json>, Seq<Tok>), Fault>(
                    (elements(arr@), self.stream()),
                ),
                self.cache is None,
            decreases self.stream().len(),
        {
            let ghost ts = self.stream();
            let ghost done = elements(arr@);
            let ghost start = old(self).input();
            let ghost taken = old(self).stream().len() - ts.len();
            proof {
                lemma_items_step(ts, end);
            }
            self.peek_token();
            match &self.cache {
                Some(Ok(Token::RAngle)) => {
                    let _ = self.read_token();
                    assert(done + Seq::<Json>::empty() =~= done);
                    proof {
                        lemma_after_tokens_add(start, taken, 1);
                    }
                    break ;
                },
                Some(Err(err)) => {
                    return Err(err.clone());
                },
                _ => {},
            }
            let v = match self.read_value() {
                Ok(v) => v,
                Err(e) => {
                    return Err(e);
                },
            };
            let ghost j = v@;
            let ghost after = self.stream();
            proof {
                lemma_item_read(done, ts, end, j, after);
                lemma_after_tokens_add(start, taken, ts.len() - after.len());
                lemma_after_tokens_add(start, taken + ts.len() - after.len(), 1);
            }
            arr.push(v);
            assert(elements(arr@) =~= done.push(j));
            match self.read_token() {
                Ok(Token::Comma) => {},
                Ok(Token::RAngle) => {
                    break ;
                },
                Ok(_) => {
                    return Err(JSONError::new("expected comma or ]"));
                },
                Err(e) => {
                    return Err(e);
                },
            }
        }
        Ok(arr)
    }

    /// Reads one value.
    fn read_value(&mut self) -> (r: Result<Value, JSONError>)
        requires
            old(self).wf(),
        ensures
            final(self).wf(),
            match value(old(self).stream(), old(self).end()) {
                Ok((j, rest)) => r matches Ok(v) && v@ == j && final(self).stream() == rest
                    && final(self).end() == old(self).end() && final(self).advanced(old(self)),
                Err(f) => r matches Err(e) && e@ == f.message(),
            },
        decreases old(self).stream().len(), 0nat,
    {
        let ghost start = self.input();
        let ghost ts = self.stream();
        proof {
            lemma_value_step(ts, self.end());
        }
        match self.read_token() {
            Err(e) => Err(e),
            Ok(Token::LBrace) => match self.read_object() {
                Ok(o) => {
                    proof {
                        lemma_after_tokens_add(start, 1, ts.len() - 1 - self.stream().len());
                    }
                    Ok(Value::Object(o))
                },
                Err(e) => Err(e),
            },
            Ok(Token::LAngle) => match self.read_array() {
                Ok(arr) => {
                    proof {
                        lemma_after_tokens_add(start, 1, ts.len() - 1 - self.stream().len());
                    }
                    Ok(Value::Array(arr))
                },
                Err(e) => Err(e),
            },
            Ok(Token::String(s)) => Ok(Value::String(s)),
            Ok(Token::Number(n)) => Ok(Value::Number(n)),
            Ok(Token::Boolean(b)) => Ok(Value::Boolean(b)),
            Ok(Token::Null) => Ok(Value::Null),
            Ok(_) => Err(JSONError::new("unexpected token")),
        }
    }
}

/// Decodes the one JSON value that the input starts with. What follows the value is
/// not read.
pub fn deserialize<S: ByteSource>(json: S) -> (r: Result<Value, JSONError>)
    ensures
        match decode(json.remaining()) {
            Ok(j) => r matches Ok(v) && v@ == j && well_formed(j),
            Err(f) => r matches Err(e) && e@ == f.message(),
        },
{
    proof {
        decoded_is_well_formed(json.remaining());
    }
    let mut parser = Parser::new(json);
    parser.read_value()
}

/// Encodes the value as JSON text, or fails where a string in it holds an ASCII control
/// character that has no escape.
pub fn serialize(val: Value) -> (r: Result<String, JSONError>)
    ensures
        match r {
            Ok(s) => encodable(val@) && s@ == as_text(render(val@)),
            Err(e) => !encodable(val@) && e@ == Fault::ControlCharacter.message(),
        },
{
    val.to_json()
}

} // verus!
