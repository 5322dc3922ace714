use vstd::prelude::*;
use crate::text::utf8_failure;

verus! {

/// The mathematical value that a JSON document denotes.
///
/// A number is kept as the bytes of its literal. An object is the sequence of its
/// members, each key once, in the order in which the keys were first inserted.
pub ghost enum Json {
    String(Seq<char>),
    Number(Seq<u8>),
    Boolean(bool),
    Null,
    Array(Seq<Json>),
    Object(Seq<(Seq<char>, Json)>),
}

/// A lexical token, as a mathematical value.
pub ghost enum Tok {
    LBrace,
    RBrace,
    LAngle,
    RAngle,
    Comma,
    Colon,
    String(Seq<char>),
    Number(Seq<u8>),
    Boolean(bool),
    Null,
}

/// Why decoding or encoding stopped. An error value carries only the message of its
/// fault; the faults themselves exist in contracts alone.
pub ghost enum Fault {
    /// The input ended where a byte or a token was needed.
    Eof,
    /// A backslash in a string was followed by a byte that names no escape.
    Escape,
    /// The four bytes after `\u` are text but not a hexadecimal number.
    Hex,
    /// The number after `\u` is a surrogate, so no Unicode scalar value.
    CodePoint,
    /// The bytes, which had to be text, are not UTF-8: the bytes of a string between
    /// two escapes, the four bytes after `\u`, or a bare lexeme.
    Utf8(Seq<u8>),
    /// A bare lexeme is neither `true`, `false`, `null` nor a numeric literal.
    Number,
    /// An object member does not start with a string.
    ExpectedString,
    /// The key of an object member is not followed by a colon.
    ExpectedColon,
    /// An object member is followed neither by a comma nor by the closing brace.
    ExpectedCommaOrBrace,
    /// An array element is followed neither by a comma nor by the closing bracket.
    ExpectedCommaOrBracket,
    /// A value starts with a token that starts no value.
    UnexpectedToken,
    /// A string holds an ASCII control character that has no escape.
    ControlCharacter,
}

impl Fault {
    /// The text that an error value carries for this fault.
    pub open spec fn message(self) -> Seq<char> {
        match self {
            Fault::Eof => "EOF"@,
            Fault::Escape => "expected \", \\, /, b, f, n, r, t or u"@,
            Fault::Hex => "invalid digit found in string"@,
            Fault::CodePoint => "invalid unicode code point"@,
            Fault::Utf8(bytes) => utf8_failure(bytes),
            Fault::Number => "invalid float literal"@,
            Fault::ExpectedString => "expected string"@,
            Fault::ExpectedColon => "expected colon"@,
            Fault::ExpectedCommaOrBrace => "expected comma or }"@,
            Fault::ExpectedCommaOrBracket => "expected comma or ]"@,
            Fault::UnexpectedToken => "unexpected token"@,
            Fault::ControlCharacter => "control characters not allowed"@,
        }
    }
}

/// The members of an object: keys with their values, in order.
pub type Members = Seq<(Seq<char>, Json)>;

/// The first position in `m` that holds the key `k`, or the length of `m` if none does.
pub open spec fn key_index(m: Members, k: Seq<char>) -> int
    decreases m.len(),
{
    if m.len() == 0 {
        0
    } else if m[0].0 == k {
        0
    } else {
        1 + key_index(m.skip(1), k)
    }
}

/// `m` after the member `(k, v)` was inserted: a member with the same key is overwritten
/// where it stands, a new key goes to the end.
pub open spec fn put(m: Members, k: Seq<char>, v: Json) -> Members {
    let i = key_index(m, k);
    if i < m.len() {
        m.update(i, (k, v))
    } else {
        m.push((k, v))
    }
}

/// The object that results from inserting the members of `raw` one after the other
/// into an empty one.
pub open spec fn collect(raw: Members) -> Members
    decreases raw.len(),
{
    if raw.len() == 0 {
        Seq::empty()
    } else {
        put(collect(raw.drop_last()), raw.last().0, raw.last().1)
    }
}

/// No key occurs twice in `m`.
pub open spec fn distinct_keys(m: Members) -> bool {
    forall|i: int, j: int| 0 <= i < j < m.len() ==> m[i].0 != m[j].0
}

/// The value that `m` holds for `k`, if any.
pub open spec fn lookup(m: Members, k: Seq<char>) -> Option<Json> {
    let i = key_index(m, k);
    if i < m.len() {
        Some(m[i].1)
    } else {
        None
    }
}

/// What `key_index` returns, stated without recursion.
pub proof fn lemma_key_index(m: Members, k: Seq<char>)
    ensures
        0 <= key_index(m, k) <= m.len(),
        forall|j: int| 0 <= j < key_index(m, k) ==> m[j].0 != k,
        key_index(m, k) < m.len() ==> m[key_index(m, k)].0 == k,
    decreases m.len(),
{
    if m.len() > 0 && m[0].0 != k {
        lemma_key_index(m.skip(1), k);
        assert forall|j: int| 0 <= j < key_index(m, k) implies m[j].0 != k by {
            if j > 0 {
                assert(m.skip(1)[j - 1] == m[j]);
            }
        }
    }
}

/// The position `i` is the one that `key_index` returns if no earlier position holds
/// `k` and `i` holds it or is the length.
pub proof fn lemma_key_index_is(m: Members, k: Seq<char>, i: int)
    requires
        0 <= i <= m.len(),
        forall|j: int| 0 <= j < i ==> m[j].0 != k,
        i < m.len() ==> m[i].0 == k,
    ensures
        key_index(m, k) == i,
{
    lemma_key_index(m, k);
}

/// Inserting keeps the keys distinct.
pub proof fn lemma_put_distinct(m: Members, k: Seq<char>, v: Json)
    requires
        distinct_keys(m),
    ensures
        distinct_keys(put(m, k, v)),
{
    lemma_key_index(m, k);
}

/// Collecting yields distinct keys.
pub proof fn lemma_collect_distinct(raw: Members)
    ensures
        distinct_keys(collect(raw)),
    decreases raw.len(),
{
    if raw.len() > 0 {
        lemma_collect_distinct(raw.drop_last());
        lemma_put_distinct(collect(raw.drop_last()), raw.last().0, raw.last().1);
    }
}

/// Collecting one member more is inserting it into what the others give.
pub proof fn lemma_collect_push(raw: Members, k: Seq<char>, v: Json)
    ensures
        collect(raw.push((k, v))) == put(collect(raw), k, v),
{
    assert(raw.push((k, v)).drop_last() =~= raw);
}

/// Members whose keys are distinct already are what collecting them yields.
pub proof fn lemma_collect_of_distinct(m: Members)
    requires
        distinct_keys(m),
    ensures
        collect(m) == m,
    decreases m.len(),
{
    if m.len() > 0 {
        let front = m.drop_last();
        lemma_collect_of_distinct(front);
        lemma_key_index_is(front, m.last().0, front.len() as int);
        assert(front.push(m.last()) =~= m);
    }
}

/// The value of the last member of `raw` that has the key `k`, if one has it.
pub open spec fn last_with_key(raw: Members, k: Seq<char>) -> Option<Json>
    decreases raw.len(),
{
    if raw.len() == 0 {
        None
    } else if raw.last().0 == k {
        Some(raw.last().1)
    } else {
        last_with_key(raw.drop_last(), k)
    }
}

/// What an object holds for a key once a member was inserted: the inserted value for
/// the inserted key, and for every other key what it held before.
pub proof fn lemma_lookup_put(m: Members, inserted: Seq<char>, v: Json, k: Seq<char>)
    ensures
        lookup(put(m, inserted, v), k) == if inserted == k {
            Some(v)
        } else {
            lookup(m, k)
        },
{
    let after = put(m, inserted, v);
    let i = key_index(m, inserted);
    let j = key_index(m, k);
    lemma_key_index(m, inserted);
    lemma_key_index(m, k);
    if inserted == k {
        lemma_key_index_is(after, k, i);
    } else if j < m.len() {
        assert(after[j] == m[j]);
        assert forall|p: int| 0 <= p < j implies after[p].0 != k by {
            assert(after[p].0 == m[p].0);
        }
        lemma_key_index_is(after, k, j);
    } else {
        assert forall|p: int| 0 <= p < after.len() implies after[p].0 != k by {
            if p < m.len() {
                assert(after[p].0 == m[p].0);
            }
        }
        lemma_key_index_is(after, k, after.len() as int);
    }
}

/// The last duplicate wins: the object that is collected from members as they are
/// written holds for each key the value of the last member with that key, holds
/// nothing for a key that no member has, and holds no key twice.
pub proof fn last_duplicate_wins(raw: Members, k: Seq<char>)
    ensures
        lookup(collect(raw), k) == last_with_key(raw, k),
        distinct_keys(collect(raw)),
    decreases raw.len(),
{
    lemma_collect_distinct(raw);
    if raw.len() > 0 {
        last_duplicate_wins(raw.drop_last(), k);
        lemma_lookup_put(collect(raw.drop_last()), raw.last().0, raw.last().1, k);
    }
}

/// The value is one that this library builds: every number in it is a literal of a
/// floating-point number, and no object in it has a key twice.
pub open spec fn well_formed(j: Json) -> bool
    decreases j,
{
    match j {
        Json::Number(literal) => crate::number::is_float_literal(literal),
        Json::Array(elements) => items_well_formed(elements),
        Json::Object(entries) => distinct_keys(entries) && members_well_formed(entries),
        _ => true,
    }
}

/// Each of the elements is well formed.
pub open spec fn items_well_formed(elements: Seq<Json>) -> bool
    decreases elements,
{
    elements.len() == 0 || (well_formed(elements[0]) && items_well_formed(elements.skip(1)))
}

/// The value of each of the members is well formed.
pub open spec fn members_well_formed(entries: Members) -> bool
    decreases entries,
{
    entries.len() == 0 || (well_formed(entries[0].1) && members_well_formed(entries.skip(1)))
}

/// The two values are the same, the order of the members of an object set aside:
/// scalars are equal, arrays hold the same elements in the same order, and objects
/// have as many members, each key of the first with the same value in the second.
/// Numbers are the same where their literals are.
pub open spec fn same(a: Json, b: Json) -> bool
    decreases a,
{
    match (a, b) {
        (Json::String(x), Json::String(y)) => x == y,
        (Json::Number(x), Json::Number(y)) => x == y,
        (Json::Boolean(x), Json::Boolean(y)) => x == y,
        (Json::Null, Json::Null) => true,
        (Json::Array(x), Json::Array(y)) => x.len() == y.len() && same_items(x, y),
        (Json::Object(x), Json::Object(y)) => x.len() == y.len() && within(x, y),
        _ => false,
    }
}

/// Element for element, `x` holds the same values as the front of `y`.
pub open spec fn same_items(x: Seq<Json>, y: Seq<Json>) -> bool
    decreases x,
{
    x.len() == 0 || (y.len() > 0 && same(x[0], y[0]) && same_items(x.skip(1), y.skip(1)))
}

/// Each member of `x` has its key in `y`, with the same value.
pub open spec fn within(x: Members, y: Members) -> bool
    decreases x,
{
    x.len() == 0 || (key_index(y, x[0].0) < y.len() && same(x[0].1, y[key_index(y, x[0].0)].1)
        && within(x.skip(1), y))
}

} // verus!
