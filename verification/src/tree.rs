//! From tokens to component values: each block folded, with what it
//! encloses, into the value that its opening token starts.

use vstd::prelude::*;
use crate::ast::{ComponentValue, Node, NumericValue, SourceLocation};
use crate::parser::{min, step};
use crate::token::Token;
use crate::token_list::{close_of, value_end, TokenList};

verus! {

/// The component value that a token is by itself. A comment is none, and a
/// token that opens a block is one only together with the block.
pub open spec fn plain_value(token: Token) -> Option<ComponentValue> {
    match token {
        Token::Ident(s) => Some(ComponentValue::Ident(s)),
        Token::AtKeyword(s) => Some(ComponentValue::AtKeyword(s)),
        Token::Hash(s) => Some(ComponentValue::Hash(s)),
        Token::IDHash(s) => Some(ComponentValue::IDHash(s)),
        Token::String(s) => Some(ComponentValue::String(s)),
        Token::URL(s) => Some(ComponentValue::URL(s)),
        Token::Delim(c) => Some(ComponentValue::Delim(c)),
        Token::Number(n) => Some(ComponentValue::Number(n)),
        Token::Percentage(n) => Some(ComponentValue::Percentage(n)),
        Token::Dimension(n, unit) => Some(ComponentValue::Dimension(n, unit)),
        Token::UnicodeRange(start, end) => Some(ComponentValue::UnicodeRange(start, end)),
        Token::WhiteSpace => Some(ComponentValue::WhiteSpace),
        Token::Comment(_) => None,
        Token::Colon => Some(ComponentValue::Colon),
        Token::Semicolon => Some(ComponentValue::Semicolon),
        Token::Comma => Some(ComponentValue::Comma),
        Token::IncludeMatch => Some(ComponentValue::IncludeMatch),
        Token::DashMatch => Some(ComponentValue::DashMatch),
        Token::PrefixMatch => Some(ComponentValue::PrefixMatch),
        Token::SuffixMatch => Some(ComponentValue::SuffixMatch),
        Token::SubstringMatch => Some(ComponentValue::SubstringMatch),
        Token::Column => Some(ComponentValue::Column),
        Token::CDO => Some(ComponentValue::CDO),
        Token::CDC => Some(ComponentValue::CDC),
        Token::Function(_) => None,
        Token::ParenthesisBlock => None,
        Token::SquareBracketBlock => None,
        Token::CurlyBracketBlock => None,
        Token::BadURL => Some(ComponentValue::BadURL),
        Token::BadString => Some(ComponentValue::BadString),
        Token::CloseParenthesis => Some(ComponentValue::CloseParenthesis),
        Token::CloseSquareBracket => Some(ComponentValue::CloseSquareBracket),
        Token::CloseCurlyBracket => Some(ComponentValue::CloseCurlyBracket),
    }
}

fn numeric_copy(value: &NumericValue) -> (r: NumericValue)
    ensures
        r == *value,
{
    NumericValue { representation: value.representation.clone(), int_value: value.int_value }
}

fn plain_value_of(token: &Token) -> (r: Option<ComponentValue>)
    ensures
        r == plain_value(*token),
{
    match token {
        Token::Ident(s) => Some(ComponentValue::Ident(s.clone())),
        Token::AtKeyword(s) => Some(ComponentValue::AtKeyword(s.clone())),
        Token::Hash(s) => Some(ComponentValue::Hash(s.clone())),
        Token::IDHash(s) => Some(ComponentValue::IDHash(s.clone())),
        Token::String(s) => Some(ComponentValue::String(s.clone())),
        Token::URL(s) => Some(ComponentValue::URL(s.clone())),
        Token::Delim(c) => Some(ComponentValue::Delim(*c)),
        Token::Number(n) => Some(ComponentValue::Number(numeric_copy(n))),
        Token::Percentage(n) => Some(ComponentValue::Percentage(numeric_copy(n))),
        Token::Dimension(n, unit) => Some(ComponentValue::Dimension(numeric_copy(n), unit.clone())),
        Token::UnicodeRange(start, end) => Some(ComponentValue::UnicodeRange(*start, *end)),
        Token::WhiteSpace => Some(ComponentValue::WhiteSpace),
        Token::Comment(_) => None,
        Token::Colon => Some(ComponentValue::Colon),
        Token::Semicolon => Some(ComponentValue::Semicolon),
        Token::Comma => Some(ComponentValue::Comma),
        Token::IncludeMatch => Some(ComponentValue::IncludeMatch),
        Token::DashMatch => Some(ComponentValue::DashMatch),
        Token::PrefixMatch => Some(ComponentValue::PrefixMatch),
        Token::SuffixMatch => Some(ComponentValue::SuffixMatch),
        Token::SubstringMatch => Some(ComponentValue::SubstringMatch),
        Token::Column => Some(ComponentValue::Column),
        Token::CDO => Some(ComponentValue::CDO),
        Token::CDC => Some(ComponentValue::CDC),
        Token::Function(_) => None,
        Token::ParenthesisBlock => None,
        Token::SquareBracketBlock => None,
        Token::CurlyBracketBlock => None,
        Token::BadURL => Some(ComponentValue::BadURL),
        Token::BadString => Some(ComponentValue::BadString),
        Token::CloseParenthesis => Some(ComponentValue::CloseParenthesis),
        Token::CloseSquareBracket => Some(ComponentValue::CloseSquareBracket),
        Token::CloseCurlyBracket => Some(ComponentValue::CloseCurlyBracket),
    }
}

/// The indices at which the component values between `i` and `limit`
/// start, comments left out.
pub open spec fn value_starts(t: Seq<Token>, i: int, limit: int) -> Seq<int>
    decreases limit - i,
{
    if i < 0 || i >= limit || i >= t.len() {
        Seq::empty()
    } else if t[i] is Comment {
        value_starts(t, i + 1, limit)
    } else if i < step(t, i, limit) {
        seq![i] + value_starts(t, step(t, i, limit), limit)
    } else {
        seq![i]
    }
}

/// The index at which what is inside the block opened at `i` ends, for a
/// block that lies before `limit`.
pub open spec fn inner_limit(t: Seq<Token>, i: int, limit: int) -> int {
    min(close_of(t, i), limit)
}

/// Whether `value` is the component value that starts at the token at `i`:
/// the token itself, or the function or block that it opens, holding the
/// component values up to the closing token or `limit`.
pub open spec fn value_represents(
    value: ComponentValue,
    t: Seq<Token>,
    locations: Seq<SourceLocation>,
    i: int,
    limit: int,
) -> bool
    decreases limit - i, 0int,
{
    if 0 <= i < limit && i + 1 <= inner_limit(t, i, limit) {
        match t[i] {
            Token::Function(name) => value is Function && value->Function_0 == name
                && values_represent(
                value->Function_1@,
                t,
                locations,
                i + 1,
                inner_limit(t, i, limit),
            ),
            Token::ParenthesisBlock => value is ParenthesisBlock && values_represent(
                value->ParenthesisBlock_0@,
                t,
                locations,
                i + 1,
                inner_limit(t, i, limit),
            ),
            Token::SquareBracketBlock => value is SquareBracketBlock && values_represent(
                value->SquareBracketBlock_0@,
                t,
                locations,
                i + 1,
                inner_limit(t, i, limit),
            ),
            Token::CurlyBracketBlock => value is CurlyBracketBlock && nodes_represent(
                value->CurlyBracketBlock_0@,
                t,
                locations,
                i + 1,
                inner_limit(t, i, limit),
            ),
            _ => plain_value(t[i]) == Some(value),
        }
    } else {
        0 <= i < limit && plain_value(t[i]) == Some(value)
    }
}

/// Whether `values` are the component values between `from` and `limit`,
/// in order.
pub open spec fn values_represent(
    values: Seq<ComponentValue>,
    t: Seq<Token>,
    locations: Seq<SourceLocation>,
    from: int,
    limit: int,
) -> bool
    decreases limit - from, 1int,
{
    let starts = value_starts(t, from, limit);
    &&& values.len() == starts.len()
    &&& forall|k: int|
        0 <= k < values.len() ==> from <= #[trigger] starts[k] < limit && value_represents(
            values[k],
            t,
            locations,
            starts[k],
            limit,
        )
}

/// Whether `nodes` are the component values between `from` and `limit`, in
/// order, each with the place where it starts.
pub open spec fn nodes_represent(
    nodes: Seq<Node>,
    t: Seq<Token>,
    locations: Seq<SourceLocation>,
    from: int,
    limit: int,
) -> bool
    decreases limit - from, 1int,
{
    let starts = value_starts(t, from, limit);
    &&& nodes.len() == starts.len()
    &&& forall|k: int|
        0 <= k < nodes.len() ==> from <= #[trigger] starts[k] < limit && value_represents(
            nodes[k].0,
            t,
            locations,
            starts[k],
            limit,
        ) && nodes[k].1 == locations[starts[k]]
}

/// The component value that starts at the token at `i`.
fn value_at(list: &TokenList, i: usize, limit: usize) -> (r: ComponentValue)
    requires
        i < limit <= list.tokens().len(),
        !(list.tokens()[i as int] is Comment),
    ensures
        value_represents(r, list.tokens(), list.locations(), i as int, limit as int),
    decreases limit - i, 0int,
{
    let token = list.get(i);
    let close = list.close(i);
    let inner: usize = if close <= limit {
        close
    } else {
        limit
    };
    match token {
        Token::Function(name) => ComponentValue::Function(
            name.clone(),
            values_in(list, i + 1, inner),
        ),
        Token::ParenthesisBlock => ComponentValue::ParenthesisBlock(values_in(list, i + 1, inner)),
        Token::SquareBracketBlock => ComponentValue::SquareBracketBlock(
            values_in(list, i + 1, inner),
        ),
        Token::CurlyBracketBlock => ComponentValue::CurlyBracketBlock(
            nodes_in(list, i + 1, inner),
        ),
        _ => {
            match plain_value_of(token) {
                Some(value) => value,
                None => ComponentValue::WhiteSpace,
            }
        },
    }
}

/// The component values between `from` and `limit`, blocks folded and
/// comments left out.
pub fn values_in(list: &TokenList, from: usize, limit: usize) -> (r: Vec<ComponentValue>)
    requires
        from <= limit <= list.tokens().len(),
    ensures
        values_represent(r@, list.tokens(), list.locations(), from as int, limit as int),
    decreases limit - from, 1int,
{
    let mut values: Vec<ComponentValue> = Vec::new();
    let mut i: usize = from;
    let ghost t = list.tokens();
    let ghost mut starts: Seq<int> = Seq::empty();
    while i < limit
        invariant
            from <= i <= limit <= t.len(),
            t == list.tokens(),
            starts + value_starts(t, i as int, limit as int) == value_starts(
                t,
                from as int,
                limit as int,
            ),
            values@.len() == starts.len(),
            forall|k: int|
                0 <= k < values@.len() ==> from <= #[trigger] starts[k] < limit
                    && value_represents(
                    values@[k],
                    t,
                    list.locations(),
                    starts[k],
                    limit as int,
                ),
        decreases limit - i,
    {
        let ghost before = starts;
        let ghost whole = value_starts(t, i as int, limit as int);
        if matches!(list.get(i), Token::Comment(_)) {
            i = i + 1;
        } else {
            let value = value_at(list, i, limit);
            let end = list.value_end(i);
            proof {
                starts = starts.push(i as int);
            }
            values.push(value);
            i = if end <= limit {
                end
            } else {
                limit
            };
            assert(starts + value_starts(t, i as int, limit as int) =~= before + whole);
        }
    }
    assert(starts =~= value_starts(t, from as int, limit as int));
    values
}

/// The component values between `from` and `limit`, each with the line and
/// column where it starts.
pub fn nodes_in(list: &TokenList, from: usize, limit: usize) -> (r: Vec<Node>)
    requires
        from <= limit <= list.tokens().len(),
    ensures
        nodes_represent(r@, list.tokens(), list.locations(), from as int, limit as int),
    decreases limit - from, 1int,
{
    let mut nodes: Vec<Node> = Vec::new();
    let mut i: usize = from;
    let ghost t = list.tokens();
    let ghost mut starts: Seq<int> = Seq::empty();
    while i < limit
        invariant
            from <= i <= limit <= t.len(),
            t == list.tokens(),
            starts + value_starts(t, i as int, limit as int) == value_starts(
                t,
                from as int,
                limit as int,
            ),
            nodes@.len() == starts.len(),
            forall|k: int|
                0 <= k < nodes@.len() ==> from <= #[trigger] starts[k] < limit
                    && value_represents(
                    nodes@[k].0,
                    t,
                    list.locations(),
                    starts[k],
                    limit as int,
                ) && nodes@[k].1 == list.locations()[starts[k]],
        decreases limit - i,
    {
        let ghost before = starts;
        let ghost whole = value_starts(t, i as int, limit as int);
        if matches!(list.get(i), Token::Comment(_)) {
            i = i + 1;
        } else {
            let value = value_at(list, i, limit);
            let location = list.location(i);
            let end = list.value_end(i);
            proof {
                starts = starts.push(i as int);
            }
            nodes.push((value, location));
            i = if end <= limit {
                end
            } else {
                limit
            };
            assert(starts + value_starts(t, i as int, limit as int) =~= before + whole);
        }
    }
    assert(starts =~= value_starts(t, from as int, limit as int));
    nodes
}

} // verus!
