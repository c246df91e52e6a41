//! What is read, written and read again holds the same component values:
//! the text that is written for component values is read as values of the
//! same kinds, with the same names, numbers and texts, and with the same
//! values inside each block.

use vstd::prelude::*;
use crate::ast::{ComponentValue, Node, SourceLocation};
use crate::json::{nodes_json, value_json, values_json};
use crate::lexical::tokens_of;
use crate::parser::step;
use crate::round_trip::{
    atom_token, closing_token, is_block, nodes_tokens, separator_tokens, value_tokens,
    values_tokens,
};
use crate::serializer::{nodes_text, spec_needs_separator, values_text};
use crate::source::normalized;
use crate::token::{BlockType, Token, TokenView};
use crate::token_list::{
    block_close, close_of, lemma_block_close, lemma_value_end, value_end, views_of,
};
use crate::tree::{
    inner_limit, nodes_represent, value_represents, value_starts, values_represent,
};
use crate::tree_laws::{
    closing_view, lemma_nodes_round_trip, lemma_represent_after_comment, lemma_represent_front,
    lemma_values_round_trip,
};

verus! {

/// The component values of nodes, without the places where they start.
pub open spec fn values_of(nodes: Seq<Node>) -> Seq<ComponentValue> {
    Seq::new(nodes.len(), |i: int| nodes[i].0)
}

/// What a function or a block holds, and nothing for any other value.
pub open spec fn content_of(value: ComponentValue) -> Seq<ComponentValue> {
    match value {
        ComponentValue::Function(_, arguments) => arguments@,
        ComponentValue::ParenthesisBlock(content) => content@,
        ComponentValue::SquareBracketBlock(content) => content@,
        ComponentValue::CurlyBracketBlock(content) => values_of(content@),
        _ => Seq::empty(),
    }
}

/// The kind of bracket that closes the block of a value.
pub open spec fn kind_of(value: ComponentValue) -> BlockType {
    match value {
        ComponentValue::SquareBracketBlock(_) => BlockType::SquareBracket,
        ComponentValue::CurlyBracketBlock(_) => BlockType::CurlyBracket,
        _ => BlockType::Parenthesis,
    }
}

/// Whether the blocks of a component value are closed where they seem to
/// be: no block holds, as a value of its own, the token that closes it.
pub open spec fn balanced(value: ComponentValue) -> bool
    decreases value,
{
    match value {
        ComponentValue::Function(_, arguments) => forall|k: int|
            0 <= k < arguments@.len() ==> balanced(#[trigger] arguments@[k]) && !(arguments@[k]
                is CloseParenthesis),
        ComponentValue::ParenthesisBlock(content) => forall|k: int|
            0 <= k < content@.len() ==> balanced(#[trigger] content@[k]) && !(content@[k]
                is CloseParenthesis),
        ComponentValue::SquareBracketBlock(content) => forall|k: int|
            0 <= k < content@.len() ==> balanced(#[trigger] content@[k]) && !(content@[k]
                is CloseSquareBracket),
        ComponentValue::CurlyBracketBlock(content) => forall|k: int|
            0 <= k < content@.len() ==> balanced((#[trigger] content@[k]).0) && !(content@[k].0
                is CloseCurlyBracket),
        _ => true,
    }
}

/// Whether each of the values is balanced, and none is the token that
/// closes a block of the kind `inside`, where one is given.
pub open spec fn balanced_values(values: Seq<ComponentValue>, inside: Option<BlockType>) -> bool {
    forall|k: int|
        0 <= k < values.len() ==> balanced(#[trigger] values[k]) && (inside is Some
            ==> atom_token(values[k]) != closing_view(inside->0))
}

/// Whether the tokens of `t` from `a` on are `tokens`.
pub open spec fn written_at(t: Seq<Token>, a: int, tokens: Seq<TokenView>) -> bool {
    &&& 0 <= a
    &&& a + tokens.len() <= t.len()
    &&& forall|j: int| 0 <= j < tokens.len() ==> t[a + j]@ == #[trigger] tokens[j]
}

/// Tokens that are written at a place are written part by part.
proof fn lemma_written_split(t: Seq<Token>, a: int, x: Seq<TokenView>, y: Seq<TokenView>)
    requires
        written_at(t, a, x + y),
    ensures
        written_at(t, a, x),
        written_at(t, a + x.len(), y),
{
    let whole = x + y;
    assert forall|j: int| 0 <= j < x.len() implies t[a + j]@ == #[trigger] x[j] by {
        assert(whole[j] == x[j]);
    }
    assert forall|j: int| 0 <= j < y.len() implies t[a + x.len() + j]@ == #[trigger] y[j] by {
        assert(whole[x.len() + j] == y[j]);
    }
}

/// The tokens of nodes are those of their values.
proof fn lemma_nodes_tokens(nodes: Seq<Node>)
    ensures
        nodes_tokens(nodes) == values_tokens(values_of(nodes)),
    decreases nodes.len(),
{
    let values = values_of(nodes);
    if nodes.len() > 0 {
        lemma_nodes_tokens(nodes.drop_last());
        assert(values.drop_last() =~= values_of(nodes.drop_last()));
    }
}

/// The tokens of component values are those of the first, the separator
/// after it, and those of the rest.
proof fn lemma_tokens_front(values: Seq<ComponentValue>)
    requires
        values.len() > 0,
    ensures
        values_tokens(values) == value_tokens(values[0]) + separator_tokens(
            values.len() >= 2 && spec_needs_separator(values[0], values[1]),
        ) + values_tokens(values.skip(1)),
    decreases values.len(),
{
    let front = values.drop_last();
    let last = values.last();
    let rest = values.skip(1);
    let none = Seq::<ComponentValue>::empty();
    if values.len() == 1 {
        assert(front =~= none);
        assert(rest =~= none);
        assert(values_tokens(none) =~= Seq::<TokenView>::empty());
        assert(values_tokens(values) =~= value_tokens(values[0]) + separator_tokens(false)
            + values_tokens(rest));
    } else {
        lemma_tokens_front(front);
        assert(rest.drop_last() =~= front.skip(1));
        assert(rest.last() == last);
        assert(front[0] == values[0]);
        if values.len() == 2 {
            assert(front.skip(1) =~= none);
            assert(values_tokens(none) =~= Seq::<TokenView>::empty());
            assert(values_tokens(values) =~= value_tokens(values[0]) + separator_tokens(
                spec_needs_separator(values[0], values[1]),
            ) + values_tokens(rest));
        } else {
            assert(front[1] == values[1]);
            assert(rest[rest.len() - 2] == values[values.len() - 2]);
            assert(values_tokens(values) =~= value_tokens(values[0]) + separator_tokens(
                spec_needs_separator(values[0], values[1]),
            ) + values_tokens(rest));
        }
    }
}

/// The tokens of a function or a block are the token that opens it, the
/// tokens of what it holds and the token that closes it. Any other value
/// has one token.
proof fn lemma_value_tokens(value: ComponentValue)
    ensures
        is_block(value) ==> value_tokens(value) == seq![atom_token(value)] + values_tokens(
            content_of(value),
        ) + seq![closing_token(value)],
        !is_block(value) ==> value_tokens(value) == seq![atom_token(value)],
        value_tokens(value).len() == if is_block(value) {
            values_tokens(content_of(value)).len() + 2
        } else {
            1
        },
        closing_token(value) == closing_view(kind_of(value)),
        !(atom_token(value) is Comment),
{
    match value {
        ComponentValue::CurlyBracketBlock(content) => {
            lemma_nodes_tokens(content@);
        },
        _ => {},
    }
}

/// What a balanced block holds is balanced, and none of it is the token
/// that closes the block.
proof fn lemma_balanced_content(value: ComponentValue)
    requires
        balanced(value),
        is_block(value),
    ensures
        balanced_values(content_of(value), Some(kind_of(value))),
{
    let content = content_of(value);
    assert forall|k: int| 0 <= k < content.len() implies balanced(#[trigger] content[k])
        && atom_token(content[k]) != closing_view(kind_of(value)) by {
        match value {
            ComponentValue::Function(_, arguments) => {
                assert(balanced(arguments@[k]));
            },
            ComponentValue::ParenthesisBlock(inner) => {
                assert(balanced(inner@[k]));
            },
            ComponentValue::SquareBracketBlock(inner) => {
                assert(balanced(inner@[k]));
            },
            ComponentValue::CurlyBracketBlock(inner) => {
                assert(balanced(inner@[k].0));
            },
            _ => {},
        }
    }
}

/// The rest of balanced values are balanced.
proof fn lemma_balanced_rest(values: Seq<ComponentValue>, inside: Option<BlockType>)
    requires
        balanced_values(values, inside),
        values.len() > 0,
    ensures
        balanced(values[0]),
        inside is Some ==> atom_token(values[0]) != closing_view(inside->0),
        balanced_values(values.skip(1), inside),
{
    let rest = values.skip(1);
    assert forall|k: int| 0 <= k < rest.len() implies balanced(#[trigger] rest[k]) && (inside
        is Some ==> atom_token(rest[k]) != closing_view(inside->0)) by {
        assert(rest[k] == values[k + 1]);
    }
}

/// Where the tokens of a balanced component value are written, the
/// component value that starts there ends after them, and the block that
/// its first token opens is closed by the last of them.
proof fn lemma_value_end_written(value: ComponentValue, t: Seq<Token>, a: int)
    requires
        written_at(t, a, value_tokens(value)),
        balanced(value),
    ensures
        a < t.len(),
        t[a]@ == atom_token(value),
        !(t[a] is Comment),
        value_end(t, a) == a + value_tokens(value).len(),
        is_block(value) ==> close_of(t, a) == a + value_tokens(value).len() - 1,
        is_block(value) ==> t[a].spec_opening() == Some(kind_of(value)),
        !is_block(value) ==> t[a].spec_opening() is None,
    decreases value_tokens(value).len(), 0int,
{
    lemma_value_tokens(value);
    let tokens = value_tokens(value);
    assert(t[a + 0]@ == tokens[0]);
    if is_block(value) {
        let content = content_of(value);
        let kind = kind_of(value);
        let inner = values_tokens(content);
        lemma_written_split(t, a, seq![atom_token(value)] + inner, seq![closing_token(value)]);
        lemma_written_split(t, a, seq![atom_token(value)], inner);
        let close = a + 1 + inner.len();
        assert(t[close + 0]@ == seq![closing_token(value)][0]);
        lemma_balanced_content(value);
        lemma_scan(content, t, a + 1, kind);
        assert(t[close].spec_closing() == Some(kind));
        assert(block_close(t, close, kind) == close);
    }
}

/// The token that closes a block is not looked for among the tokens of
/// the balanced values that the block holds: the search goes on after
/// them.
proof fn lemma_scan(values: Seq<ComponentValue>, t: Seq<Token>, b: int, kind: BlockType)
    requires
        written_at(t, b, values_tokens(values)),
        balanced_values(values, Some(kind)),
    ensures
        block_close(t, b, kind) == block_close(t, b + values_tokens(values).len(), kind),
    decreases values_tokens(values).len(), 1int,
{
    if values.len() > 0 {
        lemma_tokens_front(values);
        let first = values[0];
        let rest = values.skip(1);
        let needed = values.len() >= 2 && spec_needs_separator(values[0], values[1]);
        lemma_value_tokens(first);
        lemma_written_split(
            t,
            b,
            value_tokens(first) + separator_tokens(needed),
            values_tokens(rest),
        );
        lemma_written_split(t, b, value_tokens(first), separator_tokens(needed));
        lemma_balanced_rest(values, Some(kind));
        lemma_value_end_written(first, t, b);
        let end = b + value_tokens(first).len();
        assert(t[b].spec_closing() != Some(kind));
        assert(block_close(t, b, kind) == block_close(t, end, kind));
        if needed {
            assert(t[end + 0]@ == separator_tokens(needed)[0]);
            assert(t[end] is Comment);
            assert(value_end(t, end) == end + 1);
            assert(block_close(t, end, kind) == block_close(t, end + 1, kind));
        }
        lemma_scan(rest, t, end + separator_tokens(needed).len(), kind);
    } else {
        assert(values_tokens(values) =~= Seq::<TokenView>::empty());
    }
}

/// The nodes of a range are nodes of its component values.
proof fn lemma_nodes_represent(
    nodes: Seq<Node>,
    t: Seq<Token>,
    locations: Seq<SourceLocation>,
    from: int,
    limit: int,
)
    requires
        nodes_represent(nodes, t, locations, from, limit),
    ensures
        values_represent(values_of(nodes), t, locations, from, limit),
        nodes_json(nodes) == values_json(values_of(nodes)),
{
    let values = values_of(nodes);
    let starts = value_starts(t, from, limit);
    assert forall|k: int| 0 <= k < values.len() implies from <= #[trigger] starts[k] < limit
        && value_represents(values[k], t, locations, starts[k], limit) by {
        assert(values[k] == nodes[k].0);
    }
    assert(nodes_json(nodes) =~= values_json(values));
}

/// Where the tokens of a balanced component value are written, the
/// component value that is made of them has the same JSON value: it is of
/// the same kind and holds the same name, number or text, and a block
/// holds the same values.
proof fn lemma_same_value(
    value: ComponentValue,
    t: Seq<Token>,
    locations: Seq<SourceLocation>,
    a: int,
    limit: int,
    read: ComponentValue,
)
    requires
        written_at(t, a, value_tokens(value)),
        balanced(value),
        a + value_tokens(value).len() <= limit <= t.len(),
        value_represents(read, t, locations, a, limit),
    ensures
        value_json(read) == value_json(value),
    decreases value_tokens(value).len(), 0int,
{
    lemma_value_tokens(value);
    lemma_value_end_written(value, t, a);
    if is_block(value) {
        let content = content_of(value);
        let inner = values_tokens(content);
        lemma_written_split(t, a, seq![atom_token(value)] + inner, seq![closing_token(value)]);
        lemma_written_split(t, a, seq![atom_token(value)], inner);
        lemma_balanced_content(value);
        let close = a + 1 + inner.len();
        assert(inner_limit(t, a, limit) == close);
        assert forall|k: int| 0 <= k < content.len() implies balanced(#[trigger] content[k]) by {}
        match t[a] {
            Token::Function(name) => {
                lemma_same_values(content, t, locations, a + 1, read->Function_1@);
            },
            Token::ParenthesisBlock => {
                lemma_same_values(content, t, locations, a + 1, read->ParenthesisBlock_0@);
            },
            Token::SquareBracketBlock => {
                lemma_same_values(content, t, locations, a + 1, read->SquareBracketBlock_0@);
            },
            Token::CurlyBracketBlock => {
                let nodes = read->CurlyBracketBlock_0@;
                lemma_nodes_represent(nodes, t, locations, a + 1, close);
                lemma_same_values(content, t, locations, a + 1, values_of(nodes));
                assert(nodes_json(value->CurlyBracketBlock_0@) =~= values_json(content));
            },
            _ => {},
        }
    } else {
        lemma_value_end(t, a);
    }
}

/// Where the tokens of balanced component values are written, the
/// component values that are made of them are as many and have the same
/// JSON values, one by one.
proof fn lemma_same_values(
    values: Seq<ComponentValue>,
    t: Seq<Token>,
    locations: Seq<SourceLocation>,
    a: int,
    read: Seq<ComponentValue>,
)
    requires
        written_at(t, a, values_tokens(values)),
        forall|k: int| 0 <= k < values.len() ==> balanced(#[trigger] values[k]),
        values_represent(read, t, locations, a, a + values_tokens(values).len()),
    ensures
        read.len() == values.len(),
        values_json(read) == values_json(values),
    decreases values_tokens(values).len(), 1int,
{
    let limit = a + values_tokens(values).len();
    if values.len() == 0 {
        assert(values_tokens(values) =~= Seq::<TokenView>::empty());
        assert(values_json(read) =~= values_json(values));
    } else {
        lemma_tokens_front(values);
        let first = values[0];
        let rest = values.skip(1);
        let needed = values.len() >= 2 && spec_needs_separator(values[0], values[1]);
        lemma_value_tokens(first);
        lemma_written_split(
            t,
            a,
            value_tokens(first) + separator_tokens(needed),
            values_tokens(rest),
        );
        lemma_written_split(t, a, value_tokens(first), separator_tokens(needed));
        assert(balanced(values[0]));
        assert forall|k: int| 0 <= k < rest.len() implies balanced(#[trigger] rest[k]) by {
            assert(rest[k] == values[k + 1]);
        }
        lemma_value_end_written(first, t, a);
        let end = a + value_tokens(first).len();
        assert(step(t, a, limit) == end);
        lemma_represent_front(read, t, locations, a, limit);
        lemma_same_value(first, t, locations, a, limit, read[0]);
        let after = end + separator_tokens(needed).len();
        if needed {
            assert(t[end + 0]@ == separator_tokens(needed)[0]);
            assert(t[end] is Comment);
            lemma_represent_after_comment(read.skip(1), t, locations, end, limit);
        }
        lemma_same_values(rest, t, locations, after, read.skip(1));
        assert(values_json(read) =~= values_json(values)) by {
            assert forall|k: int| 0 <= k < read.len() implies value_json(read[k]) == value_json(
                values[k],
            ) by {
                if k > 0 {
                    assert(read.skip(1)[k - 1] == read[k]);
                    assert(rest[k - 1] == values[k]);
                    assert(values_json(read.skip(1))[k - 1] == value_json(read.skip(1)[k - 1]));
                    assert(values_json(rest)[k - 1] == value_json(rest[k - 1]));
                }
            }
        }
    }
}

/// No component value of a range that ends where a block is closed, or
/// before, starts at a token that closes a block of that kind.
proof fn lemma_no_closer_before(t: Seq<Token>, from: int, limit: int, kind: BlockType)
    requires
        0 <= from <= limit <= block_close(t, from, kind),
        from <= t.len(),
    ensures
        ({
            let starts = value_starts(t, from, limit);
            forall|m: int|
                0 <= m < starts.len() ==> t[#[trigger] starts[m]].spec_closing() != Some(kind)
        }),
    decreases limit - from,
{
    let starts = value_starts(t, from, limit);
    lemma_block_close(t, from, kind);
    if from < limit {
        lemma_value_end(t, from);
        let next = step(t, from, limit);
        if value_end(t, from) <= limit {
            lemma_block_close(t, next, kind);
        }
        if t[from] is Comment {
            lemma_no_closer_before(t, from + 1, limit, kind);
        } else {
            if value_end(t, from) <= limit {
                lemma_no_closer_before(t, next, limit, kind);
            }
            let rest = value_starts(t, next, limit);
            assert(starts =~= seq![from] + rest);
            assert forall|m: int| 0 <= m < starts.len() implies t[#[trigger] starts[m]]
                .spec_closing() != Some(kind) by {
                if m > 0 {
                    assert(starts[m] == rest[m - 1]);
                }
            }
        }
    }
}

/// A component value that is made of tokens is balanced, and its first
/// token is the one at which it starts.
pub proof fn lemma_value_balanced(
    value: ComponentValue,
    t: Seq<Token>,
    locations: Seq<SourceLocation>,
    k: int,
    limit: int,
)
    requires
        value_represents(value, t, locations, k, limit),
        0 <= k < limit <= t.len(),
    ensures
        balanced(value),
        atom_token(value) == t[k]@,
    decreases limit - k, 0int,
{
    lemma_value_end(t, k);
    if t[k].spec_opening() is Some {
        let kind = t[k].spec_opening()->0;
        let inner = inner_limit(t, k, limit);
        lemma_block_close(t, k + 1, kind);
        match t[k] {
            Token::Function(name) => {
                lemma_values_balanced(value->Function_1@, t, locations, k + 1, inner, Some(kind));
            },
            Token::ParenthesisBlock => {
                lemma_values_balanced(
                    value->ParenthesisBlock_0@,
                    t,
                    locations,
                    k + 1,
                    inner,
                    Some(kind),
                );
            },
            Token::SquareBracketBlock => {
                lemma_values_balanced(
                    value->SquareBracketBlock_0@,
                    t,
                    locations,
                    k + 1,
                    inner,
                    Some(kind),
                );
            },
            Token::CurlyBracketBlock => {
                let nodes = value->CurlyBracketBlock_0@;
                lemma_nodes_represent(nodes, t, locations, k + 1, inner);
                lemma_values_balanced(values_of(nodes), t, locations, k + 1, inner, Some(kind));
                assert forall|m: int| 0 <= m < nodes.len() implies balanced(
                    (#[trigger] nodes[m]).0,
                ) && !(nodes[m].0 is CloseCurlyBracket) by {
                    assert(values_of(nodes)[m] == nodes[m].0);
                }
            },
            _ => {},
        }
    }
}

/// The component values of a range are balanced, and none of them is the
/// token that closes a block of a kind where the range ends no later than
/// such a block would.
pub proof fn lemma_values_balanced(
    values: Seq<ComponentValue>,
    t: Seq<Token>,
    locations: Seq<SourceLocation>,
    from: int,
    limit: int,
    inside: Option<BlockType>,
)
    requires
        values_represent(values, t, locations, from, limit),
        0 <= from <= limit <= t.len(),
        inside is Some ==> limit <= block_close(t, from, inside->0),
    ensures
        balanced_values(values, inside),
    decreases limit - from, 1int,
{
    let starts = value_starts(t, from, limit);
    if inside is Some {
        lemma_no_closer_before(t, from, limit, inside->0);
    }
    assert forall|k: int| 0 <= k < values.len() implies balanced(#[trigger] values[k]) && (inside
        is Some ==> atom_token(values[k]) != closing_view(inside->0)) by {
        assert(from <= starts[k] < limit);
        lemma_value_balanced(values[k], t, locations, starts[k], limit);
    }
}

/// The component values of a text are read again from what is written for
/// them.
///
/// Let `values` be the component values that are made of the tokens `t`
/// of the text `input`, and `again` those that are made of the tokens
/// `written` of the text that is written for `values`. Then `again` holds
/// as many values as `values`, and each has the JSON value of the one in
/// its place: the same kind, the same name, number or text, and in a block
/// the same values.
pub proof fn lemma_values_read_again(
    input: Seq<char>,
    t: Seq<Token>,
    locations: Seq<SourceLocation>,
    values: Seq<ComponentValue>,
    written: Seq<Token>,
    written_locations: Seq<SourceLocation>,
    again: Seq<ComponentValue>,
)
    requires
        views_of(t) == tokens_of(normalized(input)),
        values_represent(values, t, locations, 0, t.len() as int),
        views_of(written) == tokens_of(normalized(values_text(values))),
        values_represent(again, written, written_locations, 0, written.len() as int),
    ensures
        again.len() == values.len(),
        forall|k: int| 0 <= k < values.len() ==> value_json(again[k]) == value_json(values[k]),
        values_json(again) == values_json(values),
{
    lemma_values_round_trip(input, t, locations, values);
    lemma_values_balanced(values, t, locations, 0, t.len() as int, None);
    let tokens = values_tokens(values);
    assert(views_of(written) == tokens);
    assert forall|j: int| 0 <= j < tokens.len() implies written[0 + j]@ == #[trigger] tokens[j] by {
        assert(views_of(written)[j] == written[j]@);
    }
    lemma_same_values(values, written, written_locations, 0, again);
    assert forall|k: int| 0 <= k < values.len() implies value_json(again[k]) == value_json(
        values[k],
    ) by {
        assert(values_json(again)[k] == value_json(again[k]));
        assert(values_json(values)[k] == value_json(values[k]));
    }
}

/// As `lemma_values_read_again`, for nodes: the places where the values
/// start may differ, the values do not.
pub proof fn lemma_nodes_read_again(
    input: Seq<char>,
    t: Seq<Token>,
    locations: Seq<SourceLocation>,
    nodes: Seq<Node>,
    written: Seq<Token>,
    written_locations: Seq<SourceLocation>,
    again: Seq<Node>,
)
    requires
        views_of(t) == tokens_of(normalized(input)),
        nodes_represent(nodes, t, locations, 0, t.len() as int),
        views_of(written) == tokens_of(normalized(nodes_text(nodes))),
        nodes_represent(again, written, written_locations, 0, written.len() as int),
    ensures
        again.len() == nodes.len(),
        forall|k: int| 0 <= k < nodes.len() ==> value_json(again[k].0) == value_json(nodes[k].0),
        nodes_json(again) == nodes_json(nodes),
{
    lemma_nodes_round_trip(input, t, locations, nodes);
    lemma_nodes_represent(nodes, t, locations, 0, t.len() as int);
    lemma_nodes_represent(again, written, written_locations, 0, written.len() as int);
    let values = values_of(nodes);
    lemma_values_balanced(values, t, locations, 0, t.len() as int, None);
    lemma_nodes_tokens(nodes);
    let tokens = values_tokens(values);
    assert(views_of(written) == tokens);
    assert forall|j: int| 0 <= j < tokens.len() implies written[0 + j]@ == #[trigger] tokens[j] by {
        assert(views_of(written)[j] == written[j]@);
    }
    lemma_same_values(values, written, written_locations, 0, values_of(again));
    assert forall|k: int| 0 <= k < nodes.len() implies value_json(again[k].0) == value_json(
        nodes[k].0,
    ) by {
        assert(nodes_json(again)[k] == value_json(again[k].0));
        assert(nodes_json(nodes)[k] == value_json(nodes[k].0));
    }
}

} // verus!
