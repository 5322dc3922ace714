use vstd::prelude::*;
use vstd::std_specs::cmp::PartialEqSpecImpl;
use vstd::std_specs::iter::IteratorSpec;
use vstd::string::StringExecFns;
use crate::lexical::QUOTE;
use crate::model::{
    distinct_keys, key_index, lemma_key_index_is, lemma_put_distinct, lookup, put, same, same_items,
    well_formed, within, Fault, Json, Members, Tok,
};
use crate::number::{as_text, Number};
use crate::render::{
    all_plain, encodable, escape, escape_all, hex_digits, hex_upper, is_plain,
    lemma_escape_all_push, lemma_items_encodable, lemma_members_encodable, lemma_render_items_push,
    lemma_render_members_push, member_text, quoted, render, render_items, render_members, separator,
};
use crate::validity::lemma_put_well_formed;

verus! {

/// The one kind of error of this library: a message that says what was wrong.
#[derive(Debug)]
pub struct JSONError(pub(crate) String);

impl View for JSONError {
    type V = Seq<char>;

    closed spec fn view(&self) -> Seq<char> {
        self.0@
    }
}

impl PartialEq for JSONError {
    /// Two errors are equal where their messages are.
    fn eq(&self, other: &JSONError) -> (r: bool) {
        self.0 == other.0
    }
}

impl PartialEqSpecImpl for JSONError {
    open spec fn obeys_eq_spec() -> bool {
        true
    }

    open spec fn eq_spec(&self, other: &JSONError) -> bool {
        self@ == other@
    }
}

impl Clone for JSONError {
    fn clone(&self) -> (r: JSONError)
        ensures
            r@ == self@,
    {
        JSONError(self.0.clone())
    }
}

impl JSONError {
    /// The error with the message `message`.
    pub fn new(message: &str) -> (e: JSONError)
        ensures
            e@ == message@,
    {
        JSONError(String::from_str(message))
    }

    /// The error with the message `message`, which it takes over.
    pub fn from_text(message: String) -> (e: JSONError)
        ensures
            e@ == message@,
    {
        JSONError(message)
    }

    /// The message of the error.
    pub fn message(&self) -> (m: &str)
        ensures
            m@ == self@,
    {
        self.0.as_str()
    }
}

/// A lexical token.
#[derive(Debug)]
pub(crate) enum Token {
    LBrace,
    RBrace,
    LAngle,
    RAngle,
    Comma,
    Colon,
    String(String),
    Number(Number),
    Boolean(bool),
    Null,
}

impl Token {
    /// The token as a mathematical value.
    pub(crate) open spec fn view(&self) -> Tok {
        match self {
            Token::LBrace => Tok::LBrace,
            Token::RBrace => Tok::RBrace,
            Token::LAngle => Tok::LAngle,
            Token::RAngle => Tok::RAngle,
            Token::Comma => Tok::Comma,
            Token::Colon => Tok::Colon,
            Token::String(s) => Tok::String(s@),
            Token::Number(n) => Tok::Number(n@),
            Token::Boolean(b) => Tok::Boolean(*b),
            Token::Null => Tok::Null,
        }
    }
}

/// A JSON object: keys with their values. A key occurs once; the members stand in the
/// order in which their keys were first inserted.
#[derive(Debug)]
pub struct Object {
    entries: Vec<(String, Value)>,
}

/// A JSON value.
#[derive(Debug)]
pub enum Value {
    String(String),
    Number(Number),
    Boolean(bool),
    Null,
    Array(Vec<Value>),
    Object(Object),
}

impl View for Object {
    type V = Members;

    closed spec fn view(&self) -> Members
        decreases self,
    {
        Seq::new(
            self.entries@.len(),
            |i: int|
                if 0 <= i < self.entries.len() {
                    (self.entries[i].0@, self.entries[i].1@)
                } else {
                    (Seq::empty(), Json::Null)
                },
        )
    }
}

impl View for Value {
    type V = Json;

    open spec fn view(&self) -> Json
        decreases self,
    {
        match self {
            Value::String(s) => Json::String(s@),
            Value::Number(n) => Json::Number(n@),
            Value::Boolean(b) => Json::Boolean(*b),
            Value::Null => Json::Null,
            Value::Array(items) => Json::Array(elements(items@)),
            Value::Object(o) => Json::Object(o@),
        }
    }
}

/// The values that the elements of an array denote.
pub open spec fn elements(items: Seq<Value>) -> Seq<Json>
    decreases items,
{
    Seq::new(
        items.len(),
        |i: int|
            if 0 <= i < items.len() {
                items[i]@
            } else {
                Json::Null
            },
    )
}

impl Value {
    /// Whether the two values are the same, the order of the members of an object set
    /// aside.
    fn equals(&self, other: &Value) -> (r: bool)
        ensures
            r == same(self@, other@),
        decreases self,
    {
        match (self, other) {
            (Value::String(x), Value::String(y)) => *x == *y,
            (Value::Number(x), Value::Number(y)) => *x == *y,
            (Value::Boolean(x), Value::Boolean(y)) => *x == *y,
            (Value::Null, Value::Null) => true,
            (Value::Array(x), Value::Array(y)) => items_equal(x, y),
            (Value::Object(x), Value::Object(y)) => x.equals(y),
            _ => false,
        }
    }

    /// A copy of the value.
    fn duplicate(&self) -> (r: Value)
        ensures
            r@ == self@,
        decreases self,
    {
        match self {
            Value::String(s) => Value::String(s.clone()),
            Value::Number(n) => Value::Number(n.clone()),
            Value::Boolean(b) => Value::Boolean(*b),
            Value::Null => Value::Null,
            Value::Array(items) => Value::Array(duplicate_all(items)),
            Value::Object(o) => Value::Object(o.duplicate()),
        }
    }
}

/// Copies of the values.
fn duplicate_all(items: &Vec<Value>) -> (copy: Vec<Value>)
    ensures
        elements(copy@) == elements(items@),
    decreases items,
{
    let mut copy: Vec<Value> = Vec::new();
    let mut i: usize = 0;
    while i < items.len()
        invariant
            i <= items.len(),
            copy.len() == i,
            forall|j: int| 0 <= j < i ==> copy@[j]@ == items@[j]@,
        decreases items.len() - i,
    {
        copy.push(items[i].duplicate());
        i += 1;
    }
    assert(elements(copy@) =~= elements(items@));
    copy
}

/// Whether the two vectors hold the same values, element for element.
fn items_equal(x: &Vec<Value>, y: &Vec<Value>) -> (r: bool)
    ensures
        r == (x.len() == y.len() && same_items(elements(x@), elements(y@))),
    decreases x,
{
    if x.len() != y.len() {
        return false;
    }
    let ghost ex = elements(x@);
    let ghost ey = elements(y@);
    let mut i: usize = 0;
    assert(ex.skip(0) =~= ex && ey.skip(0) =~= ey);
    while i < x.len()
        invariant
            x.len() == y.len(),
            i <= x.len(),
            ex == elements(x@),
            ey == elements(y@),
            same_items(ex, ey) == same_items(ex.skip(i as int), ey.skip(i as int)),
        decreases x.len() - i,
    {
        proof {
            assert(ex.skip(i as int)[0] == x[i as int]@);
            assert(ey.skip(i as int)[0] == y[i as int]@);
            assert(ex.skip(i as int).skip(1) =~= ex.skip(i + 1));
            assert(ey.skip(i as int).skip(1) =~= ey.skip(i + 1));
        }
        if !x[i].equals(&y[i]) {
            return false;
        }
        i += 1;
    }
    true
}

impl PartialEq for Value {
    /// Two values are equal where they are the same, the order of the members of an
    /// object set aside.
    fn eq(&self, other: &Value) -> (r: bool) {
        self.equals(other)
    }
}

impl PartialEqSpecImpl for Value {
    open spec fn obeys_eq_spec() -> bool {
        true
    }

    open spec fn eq_spec(&self, other: &Value) -> bool {
        same(self@, other@)
    }
}

impl PartialEq for Object {
    /// Two objects are equal where they have as many members, each key of the one
    /// with the same value in the other.
    fn eq(&self, other: &Object) -> (r: bool) {
        self.equals(other)
    }
}

impl PartialEqSpecImpl for Object {
    open spec fn obeys_eq_spec() -> bool {
        true
    }

    open spec fn eq_spec(&self, other: &Object) -> bool {
        same(Json::Object(self@), Json::Object(other@))
    }
}

impl Clone for Value {
    fn clone(&self) -> (r: Value)
        ensures
            r@ == self@,
    {
        self.duplicate()
    }
}

impl Clone for Object {
    fn clone(&self) -> (r: Object)
        ensures
            r@ == self@,
    {
        self.duplicate()
    }
}

impl Object {
    /// Whether the two objects have as many members, each key of this one with the
    /// same value in the other.
    fn equals(&self, other: &Object) -> (r: bool)
        ensures
            r == same(Json::Object(self@), Json::Object(other@)),
        decreases self,
    {
        if self.entries.len() != other.entries.len() {
            return false;
        }
        let ghost a = self@;
        let ghost b = other@;
        let mut i: usize = 0;
        assert(a.skip(0) =~= a);
        while i < self.entries.len()
            invariant
                i <= self.entries.len(),
                a == self@,
                b == other@,
                a.len() == self.entries.len(),
                b.len() == other.entries.len(),
                within(a, b) == within(a.skip(i as int), b),
            decreases self.entries.len() - i,
        {
            proof {
                assert(a.skip(i as int)[0] == a[i as int]);
                assert(a.skip(i as int).skip(1) =~= a.skip(i + 1));
            }
            let j = other.position(&self.entries[i].0);
            if j >= other.entries.len() {
                return false;
            }
            if !self.entries[i].1.equals(&other.entries[j].1) {
                return false;
            }
            i += 1;
        }
        true
    }

    /// A copy of the object.
    fn duplicate(&self) -> (r: Object)
        ensures
            r@ == self@,
        decreases self,
    {
        let mut copy: Vec<(String, Value)> = Vec::new();
        let mut i: usize = 0;
        while i < self.entries.len()
            invariant
                i <= self.entries.len(),
                copy.len() == i,
                forall|j: int|
                    0 <= j < i ==> copy@[j].0@ == self.entries@[j].0@ && copy@[j].1@
                        == self.entries@[j].1@,
            decreases self.entries.len() - i,
        {
            copy.push((self.entries[i].0.clone(), self.entries[i].1.duplicate()));
            i += 1;
        }
        let r = Object { entries: copy };
        assert(r@ =~= self@);
        r
    }

    /// The object without members.
    pub fn new() -> (r: Object)
        ensures
            r@ == Seq::<(Seq<char>, Json)>::empty(),
            well_formed(Json::Object(r@)),
    {
        let r = Object { entries: Vec::new() };
        assert(r@ =~= Seq::<(Seq<char>, Json)>::empty());
        r
    }

    /// The number of members.
    pub fn len(&self) -> (n: usize)
        ensures
            n == self@.len(),
    {
        self.entries.len()
    }

    /// Whether the object has no member.
    pub fn is_empty(&self) -> (b: bool)
        ensures
            b == (self@.len() == 0),
    {
        self.entries.len() == 0
    }

    /// The position of the member with the key `key`, or the number of members where
    /// no member has it.
    fn position(&self, key: &String) -> (i: usize)
        ensures
            i == key_index(self@, key@),
            i <= self@.len(),
    {
        let mut i: usize = 0;
        while i < self.entries.len()
            invariant
                i <= self.entries.len(),
                self@.len() == self.entries.len(),
                forall|j: int| 0 <= j < i ==> self@[j].0 != key@,
            decreases self.entries.len() - i,
        {
            if self.entries[i].0 == *key {
                assert(self@[i as int].0 == key@);
                proof {
                    lemma_key_index_is(self@, key@, i as int);
                }
                return i;
            }
            assert(self@[i as int].0 != key@);
            i += 1;
        }
        proof {
            lemma_key_index_is(self@, key@, i as int);
        }
        i
    }

    /// Inserts the member `(key, value)`. A member with the same key is overwritten
    /// where it stands; a new key goes to the end. An object that held no key twice
    /// holds none twice afterwards, and one that was well formed stays so if the
    /// value is.
    pub fn insert(&mut self, key: String, value: Value)
        ensures
            final(self)@ == put(old(self)@, key@, value@),
            distinct_keys(old(self)@) ==> distinct_keys(final(self)@),
            well_formed(Json::Object(old(self)@)) && well_formed(value@) ==> well_formed(
                Json::Object(final(self)@),
            ),
    {
        proof {
            if distinct_keys(self@) {
                lemma_put_distinct(self@, key@, value@);
            }
            if well_formed(Json::Object(self@)) && well_formed(value@) {
                lemma_put_well_formed(self@, key@, value@);
            }
        }
        let i = self.position(&key);
        let ghost k = key@;
        let ghost v = value@;
        if i < self.entries.len() {
            self.entries.set(i, (key, value));
            assert(self@ =~= old(self)@.update(i as int, (k, v)));
        } else {
            self.entries.push((key, value));
            assert(self@ =~= old(self)@.push((k, v)));
        }
    }

    /// The value of the member with the key `key`, if there is one.
    pub fn get(&self, key: &str) -> (r: Option<&Value>)
        ensures
            match lookup(self@, key@) {
                Some(j) => r matches Some(v) && v@ == j,
                None => r is None,
            },
    {
        let owned = String::from_str(key);
        let i = self.position(&owned);
        if i < self.entries.len() {
            Some(&self.entries[i].1)
        } else {
            None
        }
    }

    /// The key and the value of the member at position `i`, if there are so many.
    pub fn entry(&self, i: usize) -> (r: Option<(&String, &Value)>)
        ensures
            match r {
                Some((k, v)) => i < self@.len() && self@[i as int] == (k@, v@),
                None => i >= self@.len(),
            },
    {
        if i < self.entries.len() {
            Some((&self.entries[i].0, &self.entries[i].1))
        } else {
            None
        }
    }
}

/// The capital hexadecimal digit for a number below sixteen.
fn upper_hex(d: u32) -> (r: char)
    requires
        d < 16,
    ensures
        r == hex_upper(d as int) as char,
{
    if d < 10 {
        (0x30 + d as u8) as char
    } else {
        (0x41 + (d as u8 - 10)) as char
    }
}

/// Appends the code point `n` in capital hexadecimal digits.
fn push_hex(buf: &mut String, n: u32)
    requires
        n <= 0x10ffff,
    ensures
        final(buf)@ == old(buf)@ + as_text(hex_digits(n as int)),
{
    if n >= 0x100000 {
        buf.push(upper_hex(n / 0x100000 % 16));
    }
    if n >= 0x10000 {
        buf.push(upper_hex(n / 0x10000 % 16));
    }
    buf.push(upper_hex(n / 0x1000 % 16));
    buf.push(upper_hex(n / 0x100 % 16));
    buf.push(upper_hex(n / 0x10 % 16));
    buf.push(upper_hex(n % 16));
    assert(buf@ =~= old(buf)@ + as_text(hex_digits(n as int)));
}

/// Appends what stands for the character `c` in an encoded string, if anything can.
fn push_escaped(buf: &mut String, c: char) -> (ok: bool)
    ensures
        ok == is_plain(c),
        ok ==> final(buf)@ == old(buf)@ + as_text(escape(c)),
        !ok ==> final(buf)@ == old(buf)@,
{
    proof {
        reveal(escape);
    }
    let code = c as u32;
    if c == '"' || c == '\\' || c == '/' {
        buf.push('\\');
        buf.push(c);
    } else if c == '\u{8}' {
        buf.push('\\');
        buf.push('b');
    } else if c == '\u{c}' {
        buf.push('\\');
        buf.push('f');
    } else if c == '\n' {
        buf.push('\\');
        buf.push('n');
    } else if c == '\r' {
        buf.push('\\');
        buf.push('r');
    } else if c == '\t' {
        buf.push('\\');
        buf.push('t');
    } else if code < 0x20 || code == 0x7f {
        return false;
    } else if code < 0x80 {
        buf.push(c);
    } else {
        buf.push('\\');
        buf.push('u');
        push_hex(buf, code);
    }
    assert(buf@ =~= old(buf)@ + as_text(escape(c)));
    true
}

/// Appends the texts of the elements, with a separator between each two.
fn write_items(out: &mut String, items: &Vec<Value>) -> (r: Result<(), JSONError>)
    ensures
        match r {
            Ok(_) => encodable(Json::Array(elements(items@))) && final(out)@ == old(out)@ + as_text(
                render_items(elements(items@)),
            ),
            Err(e) => !encodable(Json::Array(elements(items@))) && e@
                == Fault::ControlCharacter.message(),
        },
    decreases items,
{
    let ghost all = elements(items@);
    let mut i: usize = 0;
    assert(all.take(0) =~= Seq::<Json>::empty());
    assert(out@ + as_text(Seq::<u8>::empty()) =~= out@);
    while i < items.len()
        invariant
            i <= items.len(),
            all == elements(items@),
            forall|j: int| 0 <= j < i ==> encodable(#[trigger] all[j]),
            out@ == old(out)@ + as_text(render_items(all.take(i as int))),
        decreases items.len() - i,
    {
        let ghost before = out@;
        let ghost done = all.take(i as int);
        if i > 0 {
            out.push(',');
            out.push(' ');
        }
        match items[i].to_json() {
            Ok(text) => {
                out.append(text.as_str());
            },
            Err(e) => {
                assert(all[i as int] == items[i as int]@);
                proof {
                    lemma_items_encodable(all);
                }
                return Err(e);
            },
        }
        proof {
            lemma_render_items_push(done, all[i as int]);
            assert(all.take(i + 1) =~= done.push(all[i as int]));
            let sep = if i > 0 {
                separator()
            } else {
                Seq::<u8>::empty()
            };
            assert(out@ =~= before + as_text(sep) + as_text(render(all[i as int])));
            assert(as_text(render_items(all.take(i + 1))) =~= as_text(render_items(done)) + as_text(
                sep,
            ) + as_text(render(all[i as int])));
        }
        i += 1;
    }
    assert(all.take(i as int) =~= all);
    proof {
        lemma_items_encodable(all);
    }
    Ok(())
}

impl Object {
    /// Appends the texts of the members, with a separator between each two.
    fn write_members(&self, out: &mut String) -> (r: Result<(), JSONError>)
        ensures
            match r {
                Ok(_) => encodable(Json::Object(self@)) && final(out)@ == old(out)@ + as_text(
                    render_members(self@),
                ),
                Err(e) => !encodable(Json::Object(self@)) && e@
                    == Fault::ControlCharacter.message(),
            },
        decreases self,
    {
        let ghost all = self@;
        let mut i: usize = 0;
        assert(all.take(0) =~= Seq::<(Seq<char>, Json)>::empty());
        assert(out@ + as_text(Seq::<u8>::empty()) =~= out@);
        while i < self.entries.len()
            invariant
                i <= self.entries.len(),
                all == self@,
                all.len() == self.entries.len(),
                forall|j: int|
                    0 <= j < i ==> all_plain((#[trigger] all[j]).0) && encodable(all[j].1),
                out@ == old(out)@ + as_text(render_members(all.take(i as int))),
            decreases self.entries.len() - i,
        {
            let ghost before = out@;
            let ghost done = all.take(i as int);
            let ghost key = all[i as int].0;
            let ghost v = all[i as int].1;
            if i > 0 {
                out.push(',');
                out.push(' ');
            }
            match Value::string_repr(self.entries[i].0.as_str()) {
                Ok(text) => {
                    out.append(text.as_str());
                },
                Err(e) => {
                    assert(!all_plain(all[i as int].0));
                    proof {
                        lemma_members_encodable(all);
                    }
                    return Err(e);
                },
            }
            out.push(':');
            out.push(' ');
            match self.entries[i].1.to_json() {
                Ok(text) => {
                    out.append(text.as_str());
                },
                Err(e) => {
                    assert(!encodable(all[i as int].1));
                    proof {
                        lemma_members_encodable(all);
                    }
                    return Err(e);
                },
            }
            proof {
                lemma_render_members_push(done, key, v);
                assert(all.take(i + 1) =~= done.push((key, v)));
                let sep = if i > 0 {
                    separator()
                } else {
                    Seq::<u8>::empty()
                };
                assert(out@ =~= before + as_text(sep) + as_text(member_text(key, render(v))));
                assert(as_text(render_members(all.take(i + 1))) =~= as_text(render_members(done))
                    + as_text(sep) + as_text(member_text(key, render(v))));
            }
            i += 1;
        }
        assert(all.take(i as int) =~= all);
        proof {
            lemma_members_encodable(all);
        }
        Ok(())
    }
}

impl Value {
    /// The JSON text of the value, or an error where a string in it holds an ASCII
    /// control character that has no escape.
    pub fn to_json(&self) -> (r: Result<String, JSONError>)
        ensures
            match r {
                Ok(s) => encodable(self@) && s@ == as_text(render(self@)),
                Err(e) => !encodable(self@) && e@ == Fault::ControlCharacter.message(),
            },
        decreases self,
    {
        match self {
            Value::String(s) => Self::string_repr(s.as_str()),
            Value::Number(n) => Ok(n.to_text()),
            Value::Boolean(b) => {
                let mut out = String::new();
                if *b {
                    out.push('t');
                    out.push('r');
                    out.push('u');
                    out.push('e');
                } else {
                    out.push('f');
                    out.push('a');
                    out.push('l');
                    out.push('s');
                    out.push('e');
                }
                assert(out@ =~= as_text(render(self@)));
                Ok(out)
            },
            Value::Null => {
                let mut out = String::new();
                out.push('n');
                out.push('u');
                out.push('l');
                out.push('l');
                assert(out@ =~= as_text(render(self@)));
                Ok(out)
            },
            Value::Array(arr) => {
                let mut out = String::new();
                out.push('[');
                match write_items(&mut out, arr) {
                    Ok(()) => {},
                    Err(e) => {
                        return Err(e);
                    },
                }
                out.push(']');
                assert(out@ =~= as_text(render(self@)));
                Ok(out)
            },
            Value::Object(obj) => {
                let mut out = String::new();
                out.push('{');
                match obj.write_members(&mut out) {
                    Ok(()) => {},
                    Err(e) => {
                        return Err(e);
                    },
                }
                out.push('}');
                assert(out@ =~= as_text(render(self@)));
                Ok(out)
            },
        }
    }

    /// The text as an encoded string, between quotes, or an error where it holds an
    /// ASCII control character that has no escape.
    fn string_repr(s: &str) -> (r: Result<String, JSONError>)
        ensures
            match r {
                Ok(t) => all_plain(s@) && t@ == as_text(quoted(s@)),
                Err(e) => !all_plain(s@) && e@ == Fault::ControlCharacter.message(),
            },
    {
        broadcast use vstd::string::group_string_axioms;

        let mut buf = String::new();
        buf.push('"');
        let mut it = s.chars();
        let ghost mut done: Seq<char> = Seq::empty();
        assert(done + it.remaining() =~= s@);
        assert(buf@ =~= as_text(seq![QUOTE] + escape_all(done)));
        loop
            invariant
                it.obeys_prophetic_iter_laws(),
                it.decrease() is Some,
                done + it.remaining() == s@,
                all_plain(done),
                buf@ == as_text(seq![QUOTE] + escape_all(done)),
            ensures
                done == s@,
                all_plain(done),
                buf@ == as_text(seq![QUOTE] + escape_all(done)),
            decreases s@.len() - done.len(),
        {
            let ghost before = buf@;
            let ghost rest = it.remaining();
            let c = match it.next() {
                Some(c) => c,
                None => {
                    assert(done + Seq::<char>::empty() =~= done);
                    break ;
                },
            };
            assert(s@[done.len() as int] == c);
            if !push_escaped(&mut buf, c) {
                return Err(JSONError::new("control characters not allowed"));
            }
            proof {
                lemma_escape_all_push(done, c);
                assert(buf@ =~= before + as_text(escape(c)));
                assert(done.push(c) + rest.drop_first() =~= done + rest);
                done = done.push(c);
            }
        }
        buf.push('"');
        assert(buf@ =~= as_text(quoted(s@)));
        Ok(buf)
    }
}

} // verus!
