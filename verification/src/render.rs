use vstd::prelude::*;
use crate::lexical::{
    word_false, word_null, word_true, BACKSLASH, COLON, COMMA, LBRACE, LBRACKET, QUOTE, RBRACE,
    RBRACKET, SLASH, SPACE,
};
use crate::model::{Json, Members};

verus! {

/// The capital hexadecimal digit for a number below sixteen.
pub open spec fn hex_upper(d: int) -> u8 {
    if d < 10 {
        (0x30 + d) as u8
    } else {
        (0x41 + d - 10) as u8
    }
}

/// The code point `n` in capital hexadecimal digits: four of them, and as many as it
/// takes above `FFFF`.
pub open spec fn hex_digits(n: int) -> Seq<u8> {
    let low = seq![
        hex_upper(n / 0x1000 % 16),
        hex_upper(n / 0x100 % 16),
        hex_upper(n / 0x10 % 16),
        hex_upper(n % 16),
    ];
    if n < 0x10000 {
        low
    } else if n < 0x100000 {
        seq![hex_upper(n / 0x10000 % 16)] + low
    } else {
        seq![hex_upper(n / 0x100000 % 16), hex_upper(n / 0x10000 % 16)] + low
    }
}

/// The character can stand in an encoded string: it is no ASCII control character
/// other than backspace, tab, line feed, form feed and carriage return.
pub open spec fn is_plain(c: char) -> bool {
    let n = c as int;
    (n >= 0x20 && n != 0x7f) || n == 0x08 || n == 0x09 || n == 0x0a || n == 0x0c || n == 0x0d
}

/// Every character of the text can stand in an encoded string.
pub open spec fn all_plain(text: Seq<char>) -> bool {
    forall|i: int| 0 <= i < text.len() ==> is_plain(#[trigger] text[i])
}

/// What stands for the character `c` in an encoded string.
#[verifier::opaque]
pub open spec fn escape(c: char) -> Seq<u8> {
    let n = c as int;
    if n == QUOTE || n == BACKSLASH || n == SLASH {
        seq![BACKSLASH, n as u8]
    } else if n == 0x08 {
        seq![BACKSLASH, 0x62u8]
    } else if n == 0x0c {
        seq![BACKSLASH, 0x66u8]
    } else if n == 0x0a {
        seq![BACKSLASH, 0x6eu8]
    } else if n == 0x0d {
        seq![BACKSLASH, 0x72u8]
    } else if n == 0x09 {
        seq![BACKSLASH, 0x74u8]
    } else if n < 0x80 {
        seq![n as u8]
    } else {
        seq![BACKSLASH, 0x75u8] + hex_digits(n)
    }
}

/// What stands for the characters of `text` in an encoded string.
pub open spec fn escape_all(text: Seq<char>) -> Seq<u8>
    decreases text.len(),
{
    if text.len() == 0 {
        Seq::empty()
    } else {
        escape(text[0]) + escape_all(text.skip(1))
    }
}

/// The text as an encoded string, between quotes.
pub open spec fn quoted(text: Seq<char>) -> Seq<u8> {
    seq![QUOTE] + escape_all(text) + seq![QUOTE]
}

/// What separates two elements of an array or two members of an object: a comma and
/// a space.
pub open spec fn separator() -> Seq<u8> {
    seq![COMMA, SPACE]
}

/// What separates a key from its value: a colon and a space.
pub open spec fn key_separator() -> Seq<u8> {
    seq![COLON, SPACE]
}

/// The JSON text of a value.
pub open spec fn render(j: Json) -> Seq<u8>
    decreases j,
{
    match j {
        Json::String(text) => quoted(text),
        Json::Number(literal) => literal,
        Json::Boolean(b) => if b {
            word_true()
        } else {
            word_false()
        },
        Json::Null => word_null(),
        Json::Array(elements) => seq![LBRACKET] + render_items(elements) + seq![RBRACKET],
        Json::Object(entries) => seq![LBRACE] + render_members(entries) + seq![RBRACE],
    }
}

/// The texts of the elements, with a separator between each two.
pub open spec fn render_items(elements: Seq<Json>) -> Seq<u8>
    decreases elements,
{
    if elements.len() == 0 {
        Seq::empty()
    } else if elements.len() == 1 {
        render(elements[0])
    } else {
        render(elements[0]) + separator() + render_items(elements.skip(1))
    }
}

/// The text of one member: the key as a string, a colon, a space and the text of
/// the value.
pub open spec fn member_text(key: Seq<char>, value_text: Seq<u8>) -> Seq<u8> {
    quoted(key) + key_separator() + value_text
}

/// The texts of the members, with a separator between each two.
pub open spec fn render_members(entries: Members) -> Seq<u8>
    decreases entries,
{
    if entries.len() == 0 {
        Seq::empty()
    } else if entries.len() == 1 {
        member_text(entries[0].0, render(entries[0].1))
    } else {
        member_text(entries[0].0, render(entries[0].1)) + separator() + render_members(
            entries.skip(1),
        )
    }
}

/// The value has a JSON text: every string in it, keys included, holds only
/// characters that can stand in an encoded string.
pub open spec fn encodable(j: Json) -> bool
    decreases j,
{
    match j {
        Json::String(text) => all_plain(text),
        Json::Array(elements) => items_encodable(elements),
        Json::Object(entries) => members_encodable(entries),
        _ => true,
    }
}

/// Each of the elements has a JSON text.
pub open spec fn items_encodable(elements: Seq<Json>) -> bool
    decreases elements,
{
    elements.len() == 0 || (encodable(elements[0]) && items_encodable(elements.skip(1)))
}

/// Each of the members has a JSON text, its key as well as its value.
pub open spec fn members_encodable(entries: Members) -> bool
    decreases entries,
{
    entries.len() == 0 || (all_plain(entries[0].0) && encodable(entries[0].1)
        && members_encodable(entries.skip(1)))
}

/// The elements have JSON texts exactly if each of them has one.
pub proof fn lemma_items_encodable(elements: Seq<Json>)
    ensures
        items_encodable(elements) <==> forall|i: int|
            0 <= i < elements.len() ==> encodable(#[trigger] elements[i]),
    decreases elements.len(),
{
    if elements.len() > 0 {
        let rest = elements.skip(1);
        lemma_items_encodable(rest);
        if items_encodable(elements) {
            assert forall|i: int| 0 <= i < elements.len() implies encodable(
                #[trigger] elements[i],
            ) by {
                if i > 0 {
                    assert(rest[i - 1] == elements[i]);
                }
            }
        }
        if forall|i: int| 0 <= i < elements.len() ==> encodable(#[trigger] elements[i]) {
            assert forall|i: int| 0 <= i < rest.len() implies encodable(#[trigger] rest[i]) by {
                assert(rest[i] == elements[i + 1]);
            }
        }
    }
}

/// The members have JSON texts exactly if each key and each value has one.
pub proof fn lemma_members_encodable(entries: Members)
    ensures
        members_encodable(entries) <==> forall|i: int|
            #![trigger entries[i]]
            0 <= i < entries.len() ==> all_plain(entries[i].0) && encodable(entries[i].1),
    decreases entries.len(),
{
    if entries.len() > 0 {
        let rest = entries.skip(1);
        lemma_members_encodable(rest);
        if members_encodable(entries) {
            assert forall|i: int|
                #![trigger entries[i]]
                0 <= i < entries.len() implies all_plain(entries[i].0) && encodable(
                entries[i].1,
            ) by {
                if i > 0 {
                    assert(rest[i - 1] == entries[i]);
                }
            }
        }
        if forall|i: int|
            #![trigger entries[i]]
            0 <= i < entries.len() ==> all_plain(entries[i].0) && encodable(entries[i].1) {
            assert forall|i: int|
                #![trigger rest[i]]
                0 <= i < rest.len() implies all_plain(rest[i].0) && encodable(rest[i].1) by {
                assert(rest[i] == entries[i + 1]);
            }
        }
    }
}

/// Escaping a text with one character more appends what stands for that character.
pub proof fn lemma_escape_all_push(text: Seq<char>, c: char)
    ensures
        escape_all(text.push(c)) == escape_all(text) + escape(c),
    decreases text.len(),
{
    let more = text.push(c);
    reveal_with_fuel(escape_all, 2);
    if text.len() == 0 {
        assert(more.skip(1) =~= Seq::<char>::empty());
        assert(escape_all(more) =~= escape(c));
        assert(escape_all(text) + escape(c) =~= escape(c));
    } else {
        lemma_escape_all_push(text.skip(1), c);
        assert(more.skip(1) =~= text.skip(1).push(c));
        assert(escape_all(more) =~= escape_all(text) + escape(c));
    }
}

/// The text of a sequence with one element more.
pub proof fn lemma_render_items_push(elements: Seq<Json>, j: Json)
    ensures
        render_items(elements.push(j)) == if elements.len() == 0 {
            render(j)
        } else {
            render_items(elements) + separator() + render(j)
        },
    decreases elements.len(),
{
    let more = elements.push(j);
    reveal_with_fuel(render_items, 3);
    if elements.len() == 0 {
    } else if elements.len() == 1 {
        assert(more.skip(1) =~= seq![j]);
    } else {
        lemma_render_items_push(elements.skip(1), j);
        assert(more.skip(1) =~= elements.skip(1).push(j));
        assert(render_items(more) =~= render_items(elements) + separator() + render(j));
    }
}

/// The text of the members with one member more.
pub proof fn lemma_render_members_push(entries: Members, key: Seq<char>, v: Json)
    ensures
        render_members(entries.push((key, v))) == if entries.len() == 0 {
            member_text(key, render(v))
        } else {
            render_members(entries) + separator() + member_text(key, render(v))
        },
    decreases entries.len(),
{
    let more = entries.push((key, v));
    reveal_with_fuel(render_members, 3);
    if entries.len() == 0 {
    } else if entries.len() == 1 {
        assert(more.skip(1) =~= seq![(key, v)]);
    } else {
        lemma_render_members_push(entries.skip(1), key, v);
        assert(more.skip(1) =~= entries.skip(1).push((key, v)));
        assert(render_members(more) =~= render_members(entries) + separator() + member_text(
            key,
            render(v),
        ));
    }
}

} // verus!
