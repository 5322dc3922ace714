use vstd::prelude::*;
use crate::lexical::{ending, lemma_lex_consumes, lemma_tokens_step, lex, tokens};
use crate::model::{
    collect, items_well_formed, key_index, lemma_collect_distinct, lemma_key_index,
    members_well_formed, put, well_formed, Fault, Json, Members, Tok,
};
use crate::number::is_float_literal;
use crate::syntax::{
    decode, items, lemma_items_step, lemma_members_step, lemma_value_consumes, lemma_value_step,
    members, value,
};

verus! {

/// A number token holds a literal of a floating-point number.
pub open spec fn valid_tok(t: Tok) -> bool {
    t matches Tok::Number(literal) ==> is_float_literal(literal)
}

/// Every number token among `ts` holds a literal of a floating-point number.
pub open spec fn all_valid(ts: Seq<Tok>) -> bool {
    forall|i: int| 0 <= i < ts.len() ==> valid_tok(#[trigger] ts[i])
}

/// The elements are well formed exactly if each of them is.
pub proof fn lemma_items_well_formed(elements: Seq<Json>)
    ensures
        items_well_formed(elements) <==> forall|i: int|
            0 <= i < elements.len() ==> well_formed(#[trigger] elements[i]),
    decreases elements.len(),
{
    if elements.len() > 0 {
        let rest = elements.skip(1);
        lemma_items_well_formed(rest);
        if items_well_formed(elements) {
            assert forall|i: int| 0 <= i < elements.len() implies well_formed(
                #[trigger] elements[i],
            ) by {
                if i > 0 {
                    assert(rest[i - 1] == elements[i]);
                }
            }
        }
        if forall|i: int| 0 <= i < elements.len() ==> well_formed(#[trigger] elements[i]) {
            assert forall|i: int| 0 <= i < rest.len() implies well_formed(#[trigger] rest[i]) by {
                assert(rest[i] == elements[i + 1]);
            }
        }
    }
}

/// The members are well formed exactly if the value of each of them is.
pub proof fn lemma_members_well_formed(entries: Members)
    ensures
        members_well_formed(entries) <==> forall|i: int|
            #![trigger entries[i]]
            0 <= i < entries.len() ==> well_formed(entries[i].1),
    decreases entries.len(),
{
    if entries.len() > 0 {
        let rest = entries.skip(1);
        lemma_members_well_formed(rest);
        if members_well_formed(entries) {
            assert forall|i: int| #![trigger entries[i]] 0 <= i < entries.len() implies well_formed(
                entries[i].1,
            ) by {
                if i > 0 {
                    assert(rest[i - 1] == entries[i]);
                }
            }
        }
        if forall|i: int|
            #![trigger entries[i]]
            0 <= i < entries.len() ==> well_formed(entries[i].1) {
            assert forall|i: int| #![trigger rest[i]] 0 <= i < rest.len() implies well_formed(
                rest[i].1,
            ) by {
                assert(rest[i] == entries[i + 1]);
            }
        }
    }
}

/// Inserting a well-formed value keeps the members well formed.
pub proof fn lemma_put_well_formed(m: Members, k: Seq<char>, v: Json)
    requires
        members_well_formed(m),
        well_formed(v),
    ensures
        members_well_formed(put(m, k, v)),
{
    lemma_key_index(m, k);
    lemma_members_well_formed(m);
    let after = put(m, k, v);
    lemma_members_well_formed(after);
    assert forall|i: int| #![trigger after[i]] 0 <= i < after.len() implies well_formed(
        after[i].1,
    ) by {
        if i < m.len() && i != key_index(m, k) {
            assert(after[i] == m[i]);
        }
    }
}

/// Collecting members with well-formed values gives members with well-formed values.
pub proof fn lemma_collect_well_formed(raw: Members)
    requires
        members_well_formed(raw),
    ensures
        members_well_formed(collect(raw)),
    decreases raw.len(),
{
    if raw.len() > 0 {
        let front = raw.drop_last();
        lemma_members_well_formed(raw);
        lemma_members_well_formed(front);
        assert forall|i: int| #![trigger front[i]] 0 <= i < front.len() implies well_formed(
            front[i].1,
        ) by {
            assert(front[i] == raw[i]);
        }
        lemma_collect_well_formed(front);
        assert(well_formed(raw[raw.len() - 1].1));
        lemma_put_well_formed(collect(front), raw.last().0, raw.last().1);
    }
}

/// The next token is valid.
pub proof fn lemma_lex_valid(s: Seq<u8>)
    ensures
        lex(s) matches Ok((t, _)) ==> valid_tok(t),
{
    reveal(lex);
}

/// Every token of an input is valid.
pub proof fn lemma_tokens_valid(s: Seq<u8>)
    ensures
        all_valid(tokens(s)),
    decreases s.len(),
{
    lemma_tokens_step(s);
    lemma_lex_valid(s);
    if let Ok((t, rest)) = lex(s) {
        lemma_lex_consumes(s);
        lemma_tokens_valid(rest);
        let ts = tokens(s);
        assert forall|i: int| 0 <= i < ts.len() implies valid_tok(#[trigger] ts[i]) by {
            if i > 0 {
                assert(ts[i] == tokens(rest)[i - 1]);
            }
        }
    }
}

/// Valid tokens stay valid where some are taken from their front.
proof fn lemma_valid_skip(ts: Seq<Tok>, n: int)
    requires
        all_valid(ts),
        0 <= n <= ts.len(),
    ensures
        all_valid(ts.skip(n)),
{
    let r = ts.skip(n);
    assert forall|i: int| 0 <= i < r.len() implies valid_tok(#[trigger] r[i]) by {
        assert(r[i] == ts[i + n]);
    }
}

/// A value that is read from valid tokens is well formed.
pub proof fn lemma_value_well_formed(ts: Seq<Tok>, end: Fault)
    requires
        all_valid(ts),
    ensures
        value(ts, end) matches Ok((j, _)) ==> well_formed(j),
    decreases ts.len(), 0nat,
{
    lemma_value_step(ts, end);
    if ts.len() > 0 {
        assert(valid_tok(ts[0]));
        lemma_valid_skip(ts, 1);
        match ts[0] {
            Tok::LBrace => {
                lemma_members_read_well_formed(ts.skip(1), end);
                if let Ok((raw, _)) = members(ts.skip(1), end) {
                    lemma_collect_well_formed(raw);
                    lemma_collect_distinct(raw);
                }
            },
            Tok::LAngle => {
                lemma_items_read_well_formed(ts.skip(1), end);
            },
            _ => {},
        }
    }
}

/// Elements that are read from valid tokens are well formed.
pub proof fn lemma_items_read_well_formed(ts: Seq<Tok>, end: Fault)
    requires
        all_valid(ts),
    ensures
        items(ts, end) matches Ok((elements, _)) ==> items_well_formed(elements),
    decreases ts.len(), 1nat,
{
    lemma_items_step(ts, end);
    if ts.len() > 0 && ts[0] != Tok::RAngle {
        lemma_value_well_formed(ts, end);
        lemma_value_consumes(ts, end);
        if let Ok((v, after)) = value(ts, end) {
            if after.len() > 0 {
                if after[0] == Tok::RAngle {
                    lemma_items_well_formed(seq![v]);
                } else if after[0] == Tok::Comma {
                    lemma_valid_skip(ts, ts.len() - after.len());
                    lemma_valid_skip(after, 1);
                    lemma_items_read_well_formed(after.skip(1), end);
                    if let Ok((more, _)) = items(after.skip(1), end) {
                        lemma_items_well_formed(more);
                        lemma_items_well_formed(seq![v] + more);
                    }
                }
            }
        }
    }
}

/// Members that are read from valid tokens have well-formed values.
pub proof fn lemma_members_read_well_formed(ts: Seq<Tok>, end: Fault)
    requires
        all_valid(ts),
    ensures
        members(ts, end) matches Ok((raw, _)) ==> members_well_formed(raw),
    decreases ts.len(), 1nat,
{
    lemma_members_step(ts, end);
    if ts.len() > 1 && ts[0] is String && ts[1] == Tok::Colon {
        let key = ts[0]->String_0;
        let body = ts.skip(2);
        lemma_valid_skip(ts, 2);
        lemma_value_well_formed(body, end);
        lemma_value_consumes(body, end);
        if let Ok((v, after)) = value(body, end) {
            if after.len() > 0 {
                if after[0] == Tok::RBrace {
                    lemma_members_well_formed(seq![(key, v)]);
                } else if after[0] == Tok::Comma {
                    lemma_valid_skip(body, body.len() - after.len());
                    lemma_valid_skip(after, 1);
                    lemma_members_read_well_formed(after.skip(1), end);
                    if let Ok((more, _)) = members(after.skip(1), end) {
                        lemma_members_well_formed(more);
                        lemma_members_well_formed(seq![(key, v)] + more);
                    }
                }
            }
        }
    }
}

/// What a document decodes to is well formed: its numbers are literals of
/// floating-point numbers, and no object in it has a key twice.
pub proof fn decoded_is_well_formed(s: Seq<u8>)
    ensures
        decode(s) matches Ok(j) ==> well_formed(j),
{
    lemma_tokens_valid(s);
    lemma_value_well_formed(tokens(s), ending(s));
}

} // verus!
