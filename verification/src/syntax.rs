use vstd::prelude::*;
use crate::lexical::{ending, tokens};
use crate::model::{collect, Fault, Json, Members, Tok};

verus! {

/// The value that the tokens `ts` start with, and the tokens after it. `end` is the
/// fault that stands behind the last token.
///
/// In `items` and `members`, the comparison of two lengths before the recursive call
/// serves the termination argument alone: `lemma_value_consumes` shows that it holds
/// always.
#[verifier::opaque]
pub open spec fn value(ts: Seq<Tok>, end: Fault) -> Result<(Json, Seq<Tok>), Fault>
    decreases ts.len(), 0nat,
{
    if ts.len() == 0 {
        Err(end)
    } else {
        let rest = ts.skip(1);
        match ts[0] {
            Tok::LBrace => match members(rest, end) {
                Err(f) => Err(f),
                Ok((raw, after)) => Ok((Json::Object(collect(raw)), after)),
            },
            Tok::LAngle => match items(rest, end) {
                Err(f) => Err(f),
                Ok((elements, after)) => Ok((Json::Array(elements), after)),
            },
            Tok::String(text) => Ok((Json::String(text), rest)),
            Tok::Number(literal) => Ok((Json::Number(literal), rest)),
            Tok::Boolean(b) => Ok((Json::Boolean(b), rest)),
            Tok::Null => Ok((Json::Null, rest)),
            _ => Err(Fault::UnexpectedToken),
        }
    }
}

/// The elements of an array and the tokens after its closing bracket, where `ts` are
/// the tokens after the opening bracket or after a comma. A comma before the closing
/// bracket is accepted.
#[verifier::opaque]
pub open spec fn items(ts: Seq<Tok>, end: Fault) -> Result<(Seq<Json>, Seq<Tok>), Fault>
    decreases ts.len(), 1nat,
{
    if ts.len() == 0 {
        Err(end)
    } else if ts[0] == Tok::RAngle {
        Ok((Seq::empty(), ts.skip(1)))
    } else {
        match value(ts, end) {
            Err(f) => Err(f),
            Ok((v, after)) => if after.len() == 0 {
                Err(end)
            } else if after[0] == Tok::RAngle {
                Ok((seq![v], after.skip(1)))
            } else if after[0] == Tok::Comma {
                if after.len() <= ts.len() {
                    match items(after.skip(1), end) {
                        Err(f) => Err(f),
                        Ok((more, last)) => Ok((seq![v] + more, last)),
                    }
                } else {
                    Err(end)
                }
            } else {
                Err(Fault::ExpectedCommaOrBracket)
            },
        }
    }
}

/// The members of an object as they stand in the input, a key as often as it is
/// written, and the tokens after the closing brace, where `ts` are the tokens after the
/// opening brace or after a comma. A comma before the closing brace is accepted.
#[verifier::opaque]
pub open spec fn members(ts: Seq<Tok>, end: Fault) -> Result<(Members, Seq<Tok>), Fault>
    decreases ts.len(), 1nat,
{
    if ts.len() == 0 {
        Err(end)
    } else if ts[0] == Tok::RBrace {
        Ok((Seq::empty(), ts.skip(1)))
    } else if ts[0] is String {
        let key = ts[0]->String_0;
        if ts.len() == 1 {
            Err(end)
        } else if ts[1] == Tok::Colon {
            match value(ts.skip(2), end) {
                Err(f) => Err(f),
                Ok((v, after)) => if after.len() == 0 {
                    Err(end)
                } else if after[0] == Tok::RBrace {
                    Ok((seq![(key, v)], after.skip(1)))
                } else if after[0] == Tok::Comma {
                    if after.len() <= ts.len() {
                        match members(after.skip(1), end) {
                            Err(f) => Err(f),
                            Ok((more, last)) => Ok((seq![(key, v)] + more, last)),
                        }
                    } else {
                        Err(end)
                    }
                } else {
                    Err(Fault::ExpectedCommaOrBrace)
                },
            }
        } else {
            Err(Fault::ExpectedColon)
        }
    } else {
        Err(Fault::ExpectedString)
    }
}

/// The value that the document `s` holds: the value that its tokens start with.
/// What follows that value is not looked at.
pub open spec fn decode(s: Seq<u8>) -> Result<Json, Fault> {
    match value(tokens(s), ending(s)) {
        Err(f) => Err(f),
        Ok((v, _)) => Ok(v),
    }
}

/// `r` is what is left of `ts` after `n` tokens were taken from its front.
pub open spec fn left_of(r: Seq<Tok>, ts: Seq<Tok>, n: int) -> bool {
    0 <= n <= ts.len() && r == ts.skip(n)
}

/// A value takes one token at least, and what is left is the rest of the tokens.
pub proof fn lemma_value_consumes(ts: Seq<Tok>, end: Fault)
    ensures
        value(ts, end) matches Ok((_, after)) ==> after.len() < ts.len() && left_of(
            after,
            ts,
            ts.len() - after.len(),
        ),
    decreases ts.len(), 0nat,
{
    reveal_with_fuel(value, 2);
    reveal_with_fuel(items, 2);
    reveal_with_fuel(members, 2);
    if ts.len() > 0 {
        let rest = ts.skip(1);
        match ts[0] {
            Tok::LBrace => {
                lemma_members_consume(rest, end);
                if let Ok((_, after)) = members(rest, end) {
                    assert(rest.skip(rest.len() - after.len()) =~= ts.skip(
                        ts.len() - after.len(),
                    ));
                }
            },
            Tok::LAngle => {
                lemma_items_consume(rest, end);
                if let Ok((_, after)) = items(rest, end) {
                    assert(rest.skip(rest.len() - after.len()) =~= ts.skip(
                        ts.len() - after.len(),
                    ));
                }
            },
            _ => {},
        }
    }
}

/// The elements of an array with its closing bracket take one token at least.
pub proof fn lemma_items_consume(ts: Seq<Tok>, end: Fault)
    ensures
        items(ts, end) matches Ok((_, after)) ==> after.len() < ts.len() && left_of(
            after,
            ts,
            ts.len() - after.len(),
        ),
    decreases ts.len(), 1nat,
{
    reveal_with_fuel(value, 2);
    reveal_with_fuel(items, 2);
    reveal_with_fuel(members, 2);
    if ts.len() > 0 && ts[0] != Tok::RAngle {
        lemma_value_consumes(ts, end);
        if let Ok((v, after)) = value(ts, end) {
            if after.len() > 0 {
                let next = after.skip(1);
                if after[0] == Tok::RAngle {
                    assert(next =~= ts.skip(ts.len() - next.len()));
                } else if after[0] == Tok::Comma {
                    lemma_items_consume(next, end);
                    if let Ok((_, last)) = items(next, end) {
                        assert(next =~= ts.skip(ts.len() - next.len()));
                        assert(next.skip(next.len() - last.len()) =~= ts.skip(
                            ts.len() - last.len(),
                        ));
                    }
                }
            }
        }
    }
}

/// The members of an object with its closing brace take one token at least.
pub proof fn lemma_members_consume(ts: Seq<Tok>, end: Fault)
    ensures
        members(ts, end) matches Ok((_, after)) ==> after.len() < ts.len() && left_of(
            after,
            ts,
            ts.len() - after.len(),
        ),
    decreases ts.len(), 1nat,
{
    reveal_with_fuel(value, 2);
    reveal_with_fuel(items, 2);
    reveal_with_fuel(members, 2);
    if ts.len() > 1 && ts[0] is String && ts[1] == Tok::Colon {
        let body = ts.skip(2);
        lemma_value_consumes(body, end);
        if let Ok((v, after)) = value(body, end) {
            assert(body.skip(body.len() - after.len()) =~= ts.skip(ts.len() - after.len()));
            if after.len() > 0 {
                let next = after.skip(1);
                if after[0] == Tok::RBrace {
                    assert(next =~= ts.skip(ts.len() - next.len()));
                } else if after[0] == Tok::Comma {
                    lemma_members_consume(next, end);
                    if let Ok((_, last)) = members(next, end) {
                        assert(next =~= ts.skip(ts.len() - next.len()));
                        assert(next.skip(next.len() - last.len()) =~= ts.skip(
                            ts.len() - last.len(),
                        ));
                    }
                }
            }
        }
    }
}

/// The elements `done` put in front of what the rest of an array gives.
pub open spec fn with_items(
    done: Seq<Json>,
    rest: Result<(Seq<Json>, Seq<Tok>), Fault>,
) -> Result<(Seq<Json>, Seq<Tok>), Fault> {
    match rest {
        Err(f) => Err(f),
        Ok((more, after)) => Ok((done + more, after)),
    }
}

/// The members `done` put in front of what the rest of an object gives.
pub open spec fn with_members(
    done: Members,
    rest: Result<(Members, Seq<Tok>), Fault>,
) -> Result<(Members, Seq<Tok>), Fault> {
    match rest {
        Err(f) => Err(f),
        Ok((more, after)) => Ok((done + more, after)),
    }
}

/// What `value` says of tokens that start with a given token.
pub proof fn lemma_value_step(ts: Seq<Tok>, end: Fault)
    ensures
        ts.len() == 0 ==> value(ts, end) == Err::<(Json, Seq<Tok>), Fault>(end),
        ts.len() > 0 ==> value(ts, end) == match ts[0] {
            Tok::LBrace => match members(ts.skip(1), end) {
                Err(f) => Err(f),
                Ok((raw, after)) => Ok((Json::Object(collect(raw)), after)),
            },
            Tok::LAngle => match items(ts.skip(1), end) {
                Err(f) => Err(f),
                Ok((elements, after)) => Ok((Json::Array(elements), after)),
            },
            Tok::String(text) => Ok((Json::String(text), ts.skip(1))),
            Tok::Number(literal) => Ok((Json::Number(literal), ts.skip(1))),
            Tok::Boolean(b) => Ok((Json::Boolean(b), ts.skip(1))),
            Tok::Null => Ok((Json::Null, ts.skip(1))),
            _ => Err(Fault::UnexpectedToken),
        },
{
    reveal_with_fuel(value, 2);
    reveal_with_fuel(items, 2);
    reveal_with_fuel(members, 2);
}

/// What `items` says of tokens that do not start with the closing bracket: an element,
/// and then the closing bracket or a comma and the other elements.
pub proof fn lemma_items_step(ts: Seq<Tok>, end: Fault)
    ensures
        ts.len() == 0 ==> items(ts, end) == Err::<(Seq<Json>, Seq<Tok>), Fault>(end),
        ts.len() > 0 && ts[0] == Tok::RAngle ==> items(ts, end) == Ok::<
            (Seq<Json>, Seq<Tok>),
            Fault,
        >((Seq::empty(), ts.skip(1))),
        ts.len() > 0 && ts[0] != Tok::RAngle ==> items(ts, end) == match value(ts, end) {
            Err(f) => Err(f),
            Ok((v, after)) => if after.len() == 0 {
                Err(end)
            } else if after[0] == Tok::RAngle {
                Ok((seq![v], after.skip(1)))
            } else if after[0] == Tok::Comma {
                with_items(seq![v], items(after.skip(1), end))
            } else {
                Err(Fault::ExpectedCommaOrBracket)
            },
        },
{
    reveal_with_fuel(value, 2);
    reveal_with_fuel(items, 2);
    reveal_with_fuel(members, 2);
    lemma_value_consumes(ts, end);
}

/// What `members` says of tokens that do not start with the closing brace: a key, a
/// colon and a value, and then the closing brace or a comma and the other members.
pub proof fn lemma_members_step(ts: Seq<Tok>, end: Fault)
    ensures
        ts.len() == 0 ==> members(ts, end) == Err::<(Members, Seq<Tok>), Fault>(end),
        ts.len() > 0 && ts[0] == Tok::RBrace ==> members(ts, end) == Ok::<
            (Members, Seq<Tok>),
            Fault,
        >((Seq::empty(), ts.skip(1))),
        ts.len() > 0 && ts[0] != Tok::RBrace ==> members(ts, end) == if !(ts[0] is String) {
            Err(Fault::ExpectedString)
        } else if ts.len() == 1 {
            Err(end)
        } else if ts[1] != Tok::Colon {
            Err(Fault::ExpectedColon)
        } else {
            match value(ts.skip(2), end) {
                Err(f) => Err(f),
                Ok((v, after)) => if after.len() == 0 {
                    Err(end)
                } else if after[0] == Tok::RBrace {
                    Ok((seq![(ts[0]->String_0, v)], after.skip(1)))
                } else if after[0] == Tok::Comma {
                    with_members(seq![(ts[0]->String_0, v)], members(after.skip(1), end))
                } else {
                    Err(Fault::ExpectedCommaOrBrace)
                },
            }
        },
{
    reveal_with_fuel(value, 2);
    reveal_with_fuel(items, 2);
    reveal_with_fuel(members, 2);
    if ts.len() > 1 {
        lemma_value_consumes(ts.skip(2), end);
    }
}

} // verus!
