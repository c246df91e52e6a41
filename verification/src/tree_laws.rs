//! What holds of the component values that are made of the tokens of a
//! normalized text: they are as the serializer needs them, so that what it
//! writes for them is read back.

use vstd::prelude::*;
use crate::ast::{ComponentValue, Node, SourceLocation};
use crate::parser::{step};
use crate::round_trip::{
    atom_token, carries, is_block, leaves_line_feed, lemma_nodes_text_normalized, lemma_round_trip,
    lemma_round_trip_nodes, lemma_values_text_normalized, nodes_tokens, separator_tokens,
    value_tokens, values_tokens, well_formed, well_formed_nodes, well_formed_values,
};
use crate::lexical::{tokens_of};
use crate::serializer::{nodes_text, spec_needs_separator, values_text};
use crate::source::{lemma_normalized_idempotent, lemma_normalized_is_normalized, normalized};
use crate::token::{Token, TokenView};
use crate::token_laws::{lemma_tokens_ok, token_leaves_line_feed, token_ok, tokens_ok};
use crate::token_list::{
    block_close, close_of, lemma_block_close, lemma_value_end, value_end, views_of,
};
use crate::tree::{
    inner_limit, nodes_represent, plain_value, value_represents, value_starts, values_represent,
};

verus! {

/// Whether a limit is one at which a block can end: the end of the tokens,
/// or a closing token.
pub open spec fn limit_ok(t: Seq<Token>, limit: int) -> bool {
    limit == t.len() || (0 <= limit < t.len() && t[limit].spec_closing() is Some)
}

/// A component value that is a token by itself is well formed where the
/// token is as `token_ok` says, and it is the value of that token.
pub proof fn lemma_plain_value(token: Token, value: ComponentValue)
    requires
        plain_value(token) == Some(value),
        token_ok(token@),
    ensures
        well_formed(value),
        !is_block(value),
        atom_token(value) == token@,
        leaves_line_feed(value) == token_leaves_line_feed(token@),
        value is WhiteSpace == token is WhiteSpace,
{
}

/// Each index at which a component value starts lies in the range and
/// holds no comment, and the starts from it on are the rest of the starts.
pub proof fn lemma_value_starts(t: Seq<Token>, from: int, limit: int)
    requires
        0 <= from <= limit <= t.len(),
    ensures
        forall|m: int|
            0 <= m < value_starts(t, from, limit).len() ==> {
                let k = #[trigger] value_starts(t, from, limit)[m];
                &&& from <= k < limit
                &&& !(t[k] is Comment)
                &&& value_starts(t, k, limit) == value_starts(t, from, limit).skip(m)
            },
    decreases limit - from,
{
    let starts = value_starts(t, from, limit);
    if from < limit {
        if t[from] is Comment {
            lemma_value_starts(t, from + 1, limit);
        } else {
            lemma_value_end(t, from);
            let next = step(t, from, limit);
            lemma_value_starts(t, next, limit);
            let rest = value_starts(t, next, limit);
            assert(starts =~= seq![from] + rest);
            assert forall|m: int| 0 <= m < starts.len() implies {
                let k = #[trigger] starts[m];
                &&& from <= k < limit
                &&& !(t[k] is Comment)
                &&& value_starts(t, k, limit) == starts.skip(m)
            } by {
                if m == 0 {
                    assert(starts.skip(0) =~= starts);
                } else {
                    assert(starts[m] == rest[m - 1]);
                    assert(starts.skip(m) =~= rest.skip(m - 1));
                }
            }
        }
    }
}

/// The limit of what a block holds is one at which a block can end.
proof fn lemma_inner_limit(t: Seq<Token>, k: int, limit: int)
    requires
        0 <= k < limit <= t.len(),
        t[k].spec_opening() is Some,
        limit_ok(t, limit),
    ensures
        k + 1 <= inner_limit(t, k, limit) <= limit,
        limit_ok(t, inner_limit(t, k, limit)),
{
    lemma_value_end(t, k);
    lemma_block_close(t, k + 1, t[k].spec_opening()->0);
}

/// A component value that is made of the tokens of a normalized text is
/// well formed.
pub proof fn lemma_value_well_formed(
    value: ComponentValue,
    t: Seq<Token>,
    locations: Seq<SourceLocation>,
    k: int,
    limit: int,
)
    requires
        value_represents(value, t, locations, k, limit),
        0 <= k < limit <= t.len(),
        tokens_ok(views_of(t)),
        limit_ok(t, limit),
    ensures
        well_formed(value),
        leaves_line_feed(value) == token_leaves_line_feed(t[k]@),
        value is WhiteSpace == t[k] is WhiteSpace,
    decreases limit - k, 0int,
{
    assert(views_of(t)[k] == t[k]@);
    assert(token_ok(t[k]@));
    if t[k].spec_opening() is Some {
        lemma_inner_limit(t, k, limit);
        let inner = inner_limit(t, k, limit);
        match t[k] {
            Token::Function(name) => {
                lemma_values_well_formed(value->Function_1@, t, locations, k + 1, inner);
            },
            Token::ParenthesisBlock => {
                lemma_values_well_formed(value->ParenthesisBlock_0@, t, locations, k + 1, inner);
            },
            Token::SquareBracketBlock => {
                lemma_values_well_formed(
                    value->SquareBracketBlock_0@,
                    t,
                    locations,
                    k + 1,
                    inner,
                );
            },
            Token::CurlyBracketBlock => {
                lemma_nodes_well_formed(value->CurlyBracketBlock_0@, t, locations, k + 1, inner);
            },
            _ => {},
        }
    } else {
        lemma_value_end(t, k);
        lemma_plain_value(t[k], value);
    }
}

/// Whitespace follows a token that leaves a line feed, among the starts of
/// component values too.
proof fn lemma_whitespace_follows(t: Seq<Token>, from: int, limit: int, m: int)
    requires
        0 <= from <= limit <= t.len(),
        tokens_ok(views_of(t)),
        limit_ok(t, limit),
        0 <= m < value_starts(t, from, limit).len(),
        token_leaves_line_feed(t[value_starts(t, from, limit)[m]]@),
    ensures
        m + 1 < value_starts(t, from, limit).len(),
        value_starts(t, from, limit)[m + 1] == value_starts(t, from, limit)[m] + 1,
        t[value_starts(t, from, limit)[m] + 1] is WhiteSpace,
{
    let starts = value_starts(t, from, limit);
    lemma_value_starts(t, from, limit);
    let k = starts[m];
    assert(views_of(t)[k] == t[k]@);
    assert(views_of(t)[k + 1] == t[k + 1]@);
    assert(t[k + 1] is WhiteSpace);
    lemma_value_end(t, k);
    assert(value_end(t, k) == k + 1);
    assert(k + 1 < limit);
    let rest = value_starts(t, k + 1, limit);
    lemma_value_end(t, k + 1);
    assert(rest.len() > 0 && rest[0] == k + 1);
    assert(value_starts(t, k, limit) =~= seq![k] + rest);
    assert(starts.skip(m).len() >= 2);
    assert(starts.skip(m)[1] == k + 1);
}

/// The component values that are made of the tokens of a normalized text
/// are well formed, and the last of them leaves no line feed.
pub proof fn lemma_values_well_formed(
    values: Seq<ComponentValue>,
    t: Seq<Token>,
    locations: Seq<SourceLocation>,
    from: int,
    limit: int,
)
    requires
        values_represent(values, t, locations, from, limit),
        0 <= from <= limit <= t.len(),
        tokens_ok(views_of(t)),
        limit_ok(t, limit),
    ensures
        well_formed_values(values),
        !carries(values),
    decreases limit - from, 1int,
{
    let starts = value_starts(t, from, limit);
    lemma_value_starts(t, from, limit);
    assert forall|m: int| 0 <= m < values.len() implies well_formed(#[trigger] values[m]) && (
    leaves_line_feed(values[m]) ==> m + 1 < values.len() && values[m + 1] is WhiteSpace) by {
        let k = starts[m];
        lemma_value_well_formed(values[m], t, locations, k, limit);
        if leaves_line_feed(values[m]) {
            lemma_whitespace_follows(t, from, limit, m);
            lemma_value_well_formed(values[m + 1], t, locations, starts[m + 1], limit);
        }
    }
}

/// As `lemma_values_well_formed`, for nodes.
pub proof fn lemma_nodes_well_formed(
    nodes: Seq<Node>,
    t: Seq<Token>,
    locations: Seq<SourceLocation>,
    from: int,
    limit: int,
)
    requires
        nodes_represent(nodes, t, locations, from, limit),
        0 <= from <= limit <= t.len(),
        tokens_ok(views_of(t)),
        limit_ok(t, limit),
    ensures
        well_formed_nodes(nodes),
        !(nodes.len() > 0 && leaves_line_feed(nodes.last().0)),
    decreases limit - from, 1int,
{
    let starts = value_starts(t, from, limit);
    lemma_value_starts(t, from, limit);
    assert forall|m: int| 0 <= m < nodes.len() implies well_formed((#[trigger] nodes[m]).0) && (
    leaves_line_feed(nodes[m].0) ==> m + 1 < nodes.len() && nodes[m + 1].0 is WhiteSpace) by {
        let k = starts[m];
        lemma_value_well_formed(nodes[m].0, t, locations, k, limit);
        if leaves_line_feed(nodes[m].0) {
            lemma_whitespace_follows(t, from, limit, m);
            lemma_value_well_formed(nodes[m + 1].0, t, locations, starts[m + 1], limit);
        }
    }
}

/// Tokens without the comments among them.
pub open spec fn without_comments(tokens: Seq<TokenView>) -> Seq<TokenView>
    decreases tokens.len(),
{
    if tokens.len() == 0 {
        Seq::empty()
    } else if tokens.last() is Comment {
        without_comments(tokens.drop_last())
    } else {
        without_comments(tokens.drop_last()).push(tokens.last())
    }
}

/// Leaving out the comments of tokens that follow one another leaves out
/// the comments of each part.
pub proof fn lemma_without_comments_add(a: Seq<TokenView>, b: Seq<TokenView>)
    ensures
        without_comments(a + b) == without_comments(a) + without_comments(b),
    decreases b.len(),
{
    if b.len() == 0 {
        assert(a + b =~= a);
        assert(without_comments(a) + without_comments(b) =~= without_comments(a));
    } else {
        lemma_without_comments_add(a, b.drop_last());
        assert((a + b).drop_last() =~= a + b.drop_last());
        assert((a + b).last() == b.last());
        assert(without_comments(a + b) =~= without_comments(a) + without_comments(b));
    }
}

/// A token alone is left as it is, unless it is a comment.
pub proof fn lemma_without_comments_one(token: TokenView)
    ensures
        without_comments(seq![token]) == if token is Comment {
            Seq::<TokenView>::empty()
        } else {
            seq![token]
        },
{
    assert(seq![token].drop_last() =~= Seq::<TokenView>::empty());
    assert(without_comments(seq![token].drop_last()) =~= Seq::<TokenView>::empty());
    if !(token is Comment) {
        assert(without_comments(seq![token]) =~= seq![token]);
    }
}

/// Whether the component values that start at `from` end at `limit`, one
/// after the other.
pub open spec fn reaches(t: Seq<Token>, from: int, limit: int) -> bool
    decreases limit - from,
{
    from == limit || (0 <= from < limit && from < value_end(t, from) <= limit && reaches(
        t,
        value_end(t, from),
        limit,
    ))
}

/// The component values end at the end of the tokens, wherever they
/// start.
pub proof fn lemma_reaches_end(t: Seq<Token>, from: int)
    requires
        0 <= from <= t.len(),
    ensures
        reaches(t, from, t.len() as int),
    decreases t.len() - from,
{
    if from < t.len() {
        lemma_value_end(t, from);
        lemma_reaches_end(t, value_end(t, from));
    }
}

/// What a block holds ends where the block is closed.
pub proof fn lemma_reaches_close(t: Seq<Token>, from: int, kind: crate::token::BlockType)
    requires
        0 <= from <= t.len(),
    ensures
        reaches(t, from, block_close(t, from, kind)),
    decreases t.len() - from,
{
    if from < t.len() && t[from].spec_closing() != Some(kind) {
        lemma_value_end(t, from);
        let next = value_end(t, from);
        lemma_reaches_close(t, next, kind);
        lemma_block_close(t, next, kind);
    }
}

/// No token that closes a block stands among the component values that
/// the block holds: none of them starts at a closing token of the kind of
/// the block.
pub proof fn lemma_no_closer_inside(t: Seq<Token>, from: int, kind: crate::token::BlockType)
    requires
        0 <= from <= t.len(),
    ensures
        ({
            let starts = value_starts(t, from, block_close(t, from, kind));
            forall|m: int|
                0 <= m < starts.len() ==> t[#[trigger] starts[m]].spec_closing() != Some(kind)
        }),
    decreases t.len() - from,
{
    let limit = block_close(t, from, kind);
    let starts = value_starts(t, from, limit);
    lemma_block_close(t, from, kind);
    if from < t.len() && t[from].spec_closing() != Some(kind) {
        lemma_value_end(t, from);
        let next = value_end(t, from);
        lemma_block_close(t, next, kind);
        lemma_no_closer_inside(t, next, kind);
        if t[from] is Comment {
            assert(starts =~= value_starts(t, next, limit));
        } else {
            let rest = value_starts(t, next, limit);
            assert(starts =~= seq![from] + rest);
            assert forall|m: int| 0 <= m < starts.len() implies t[#[trigger] starts[m]]
                .spec_closing() != Some(kind) by {
                if m > 0 {
                    assert(starts[m] == rest[m - 1]);
                }
            }
        }
    }
}

/// The token that closes a block of a kind.
pub open spec fn closing_view(kind: crate::token::BlockType) -> TokenView {
    match kind {
        crate::token::BlockType::Parenthesis => TokenView::CloseParenthesis,
        crate::token::BlockType::SquareBracket => TokenView::CloseSquareBracket,
        crate::token::BlockType::CurlyBracket => TokenView::CloseCurlyBracket,
    }
}

/// The closing tokens that the tokens from `from` on lack: one for each
/// block that is open at the end of the tokens, the innermost first.
pub open spec fn missing_from(t: Seq<Token>, from: int) -> Seq<TokenView>
    decreases t.len() - from,
{
    if from < 0 || from >= t.len() {
        Seq::empty()
    } else if t[from].spec_opening() is Some && close_of(t, from) >= t.len() {
        missing_from(t, from + 1).push(closing_view(t[from].spec_opening()->0))
    } else if from < value_end(t, from) {
        missing_from(t, value_end(t, from))
    } else {
        Seq::empty()
    }
}

/// The closing tokens that a range of tokens lacks: none where the range
/// ends before the end of the tokens.
pub open spec fn missing(t: Seq<Token>, from: int, limit: int) -> Seq<TokenView> {
    if limit >= t.len() {
        missing_from(t, from)
    } else {
        Seq::empty()
    }
}

/// Only closing tokens are lacking.
pub proof fn lemma_missing_closes(t: Seq<Token>, from: int)
    ensures
        forall|k: int|
            0 <= k < missing_from(t, from).len() ==> {
                let token = #[trigger] missing_from(t, from)[k];
                token is CloseParenthesis || token is CloseSquareBracket || token
                    is CloseCurlyBracket
            },
    decreases t.len() - from,
{
    if 0 <= from < t.len() {
        if t[from].spec_opening() is Some && close_of(t, from) >= t.len() {
            lemma_missing_closes(t, from + 1);
        } else if from < value_end(t, from) {
            lemma_missing_closes(t, value_end(t, from));
        }
    }
}

/// The tokens of component values without the comments are those of the
/// first and those of the rest.
pub proof fn lemma_values_tokens_front(values: Seq<ComponentValue>)
    requires
        values.len() > 0,
    ensures
        without_comments(values_tokens(values)) == without_comments(value_tokens(values[0]))
            + without_comments(values_tokens(values.skip(1))),
    decreases values.len(),
{
    let front = values.drop_last();
    let last = values.last();
    let needed = values.len() >= 2 && spec_needs_separator(values[values.len() - 2], last);
    lemma_without_comments_add(values_tokens(front) + separator_tokens(needed), value_tokens(last));
    lemma_without_comments_add(values_tokens(front), separator_tokens(needed));
    lemma_without_comments_one(TokenView::Comment(Seq::<char>::empty()));
    assert(without_comments(separator_tokens(needed)) =~= Seq::<TokenView>::empty());
    if values.len() == 1 {
        assert(front =~= Seq::<ComponentValue>::empty());
        assert(values.skip(1) =~= Seq::<ComponentValue>::empty());
        assert(without_comments(values_tokens(values)) =~= without_comments(
            value_tokens(values[0]),
        ) + without_comments(values_tokens(values.skip(1))));
    } else {
        lemma_values_tokens_front(front);
        let rest = values.skip(1);
        assert(rest.drop_last() =~= front.skip(1));
        assert(rest.last() == last);
        let needed_rest = rest.len() >= 2 && spec_needs_separator(rest[rest.len() - 2], last);
        lemma_without_comments_add(
            values_tokens(rest.drop_last()) + separator_tokens(needed_rest),
            value_tokens(last),
        );
        lemma_without_comments_add(
            values_tokens(rest.drop_last()),
            separator_tokens(needed_rest),
        );
        assert(without_comments(separator_tokens(needed_rest)) =~= Seq::<TokenView>::empty());
        assert(front[0] == values[0]);
        assert(without_comments(values_tokens(values)) =~= without_comments(
            value_tokens(values[0]),
        ) + without_comments(values_tokens(rest)));
    }
}

/// As `lemma_values_tokens_front`, for nodes.
pub proof fn lemma_nodes_tokens_front(nodes: Seq<Node>)
    requires
        nodes.len() > 0,
    ensures
        without_comments(nodes_tokens(nodes)) == without_comments(value_tokens(nodes[0].0))
            + without_comments(nodes_tokens(nodes.skip(1))),
    decreases nodes.len(),
{
    let front = nodes.drop_last();
    let last = nodes.last().0;
    let needed = nodes.len() >= 2 && spec_needs_separator(nodes[nodes.len() - 2].0, last);
    lemma_without_comments_add(nodes_tokens(front) + separator_tokens(needed), value_tokens(last));
    lemma_without_comments_add(nodes_tokens(front), separator_tokens(needed));
    lemma_without_comments_one(TokenView::Comment(Seq::<char>::empty()));
    assert(without_comments(separator_tokens(needed)) =~= Seq::<TokenView>::empty());
    if nodes.len() == 1 {
        assert(front =~= Seq::<Node>::empty());
        assert(nodes.skip(1) =~= Seq::<Node>::empty());
        assert(without_comments(nodes_tokens(nodes)) =~= without_comments(
            value_tokens(nodes[0].0),
        ) + without_comments(nodes_tokens(nodes.skip(1))));
    } else {
        lemma_nodes_tokens_front(front);
        let rest = nodes.skip(1);
        assert(rest.drop_last() =~= front.skip(1));
        assert(rest.last() == nodes.last());
        let needed_rest = rest.len() >= 2 && spec_needs_separator(rest[rest.len() - 2].0, last);
        lemma_without_comments_add(
            nodes_tokens(rest.drop_last()) + separator_tokens(needed_rest),
            value_tokens(last),
        );
        lemma_without_comments_add(nodes_tokens(rest.drop_last()), separator_tokens(needed_rest));
        assert(without_comments(separator_tokens(needed_rest)) =~= Seq::<TokenView>::empty());
        assert(front[0] == nodes[0]);
        assert(without_comments(nodes_tokens(nodes)) =~= without_comments(
            value_tokens(nodes[0].0),
        ) + without_comments(nodes_tokens(rest)));
    }
}

/// The first of the component values of a range is the one that starts
/// at the start of the range, where no comment stands there, and the rest
/// are those of the range after it.
pub proof fn lemma_represent_front(
    values: Seq<ComponentValue>,
    t: Seq<Token>,
    locations: Seq<SourceLocation>,
    from: int,
    limit: int,
)
    requires
        values_represent(values, t, locations, from, limit),
        0 <= from < limit <= t.len(),
        !(t[from] is Comment),
    ensures
        values.len() > 0,
        value_represents(values[0], t, locations, from, limit),
        values_represent(values.skip(1), t, locations, step(t, from, limit), limit),
{
    lemma_value_end(t, from);
    let next = step(t, from, limit);
    let starts = value_starts(t, from, limit);
    let rest = value_starts(t, next, limit);
    assert(starts =~= seq![from] + rest);
    assert(starts[0] == from);
    lemma_value_starts(t, next, limit);
    assert forall|k: int| 0 <= k < values.skip(1).len() implies next <= #[trigger] rest[k] < limit
        && value_represents(values.skip(1)[k], t, locations, rest[k], limit) by {
        assert(starts[k + 1] == rest[k]);
        assert(values.skip(1)[k] == values[k + 1]);
    }
}

/// As `lemma_represent_front`, for nodes.
pub proof fn lemma_represent_front_nodes(
    nodes: Seq<Node>,
    t: Seq<Token>,
    locations: Seq<SourceLocation>,
    from: int,
    limit: int,
)
    requires
        nodes_represent(nodes, t, locations, from, limit),
        0 <= from < limit <= t.len(),
        !(t[from] is Comment),
    ensures
        nodes.len() > 0,
        value_represents(nodes[0].0, t, locations, from, limit),
        nodes_represent(nodes.skip(1), t, locations, step(t, from, limit), limit),
{
    lemma_value_end(t, from);
    let next = step(t, from, limit);
    let starts = value_starts(t, from, limit);
    let rest = value_starts(t, next, limit);
    assert(starts =~= seq![from] + rest);
    assert(starts[0] == from);
    lemma_value_starts(t, next, limit);
    assert forall|k: int| 0 <= k < nodes.skip(1).len() implies next <= #[trigger] rest[k] < limit
        && value_represents(nodes.skip(1)[k].0, t, locations, rest[k], limit) && nodes.skip(
        1,
    )[k].1 == locations[rest[k]] by {
        assert(starts[k + 1] == rest[k]);
        assert(nodes.skip(1)[k] == nodes[k + 1]);
    }
}

/// The component values of a range that starts with a comment are those
/// of the range after the comment.
pub proof fn lemma_represent_after_comment(
    values: Seq<ComponentValue>,
    t: Seq<Token>,
    locations: Seq<SourceLocation>,
    from: int,
    limit: int,
)
    requires
        values_represent(values, t, locations, from, limit),
        0 <= from < limit <= t.len(),
        t[from] is Comment,
    ensures
        values_represent(values, t, locations, from + 1, limit),
{
    lemma_value_starts(t, from + 1, limit);
}

/// As `lemma_represent_after_comment`, for nodes.
pub proof fn lemma_represent_after_comment_nodes(
    nodes: Seq<Node>,
    t: Seq<Token>,
    locations: Seq<SourceLocation>,
    from: int,
    limit: int,
)
    requires
        nodes_represent(nodes, t, locations, from, limit),
        0 <= from < limit <= t.len(),
        t[from] is Comment,
    ensures
        nodes_represent(nodes, t, locations, from + 1, limit),
{
    lemma_value_starts(t, from + 1, limit);
}

/// A component value that is a token by itself has that token.
pub proof fn lemma_plain_token(token: Token, value: ComponentValue)
    requires
        plain_value(token) == Some(value),
    ensures
        !is_block(value),
        atom_token(value) == token@,
        !(token@ is Comment),
        token.spec_opening() is None,
{
}

/// The tokens of a range are the first and those of the range after it.
proof fn lemma_subrange_front(tokens: Seq<TokenView>, from: int, limit: int)
    requires
        0 <= from < limit <= tokens.len(),
    ensures
        tokens.subrange(from, limit) == seq![tokens[from]] + tokens.subrange(from + 1, limit),
{
    assert(tokens.subrange(from, limit) =~= seq![tokens[from]] + tokens.subrange(
        from + 1,
        limit,
    ));
}

/// What `lemma_flat_values` states of tokens that are written for a
/// range.
pub open spec fn flat_as(written: Seq<TokenView>, t: Seq<Token>, from: int, limit: int) -> bool {
    without_comments(written) == without_comments(views_of(t).subrange(from, limit)) + missing(
        t,
        from,
        limit,
    )
}

/// The tokens of a range that starts with a token by itself are that
/// token and the tokens of the rest of the range.
proof fn lemma_flat_atom(
    t: Seq<Token>,
    from: int,
    limit: int,
    value: ComponentValue,
    rest: Seq<TokenView>,
)
    requires
        0 <= from < limit <= t.len(),
        plain_value(t[from]) == Some(value),
        flat_as(rest, t, from + 1, limit),
    ensures
        without_comments(value_tokens(value)) + without_comments(rest) == without_comments(
            views_of(t).subrange(from, limit),
        ) + missing(t, from, limit),
{
    let views = views_of(t);
    lemma_plain_token(t[from], value);
    lemma_value_end(t, from);
    lemma_subrange_front(views, from, limit);
    lemma_without_comments_add(seq![views[from]], views.subrange(from + 1, limit));
    lemma_without_comments_one(views[from]);
    assert(views[from] == t[from]@);
    assert(value_tokens(value) =~= seq![atom_token(value)]);
    assert(missing(t, from, limit) == missing(t, from + 1, limit));
    assert(without_comments(value_tokens(value)) + without_comments(rest) =~= without_comments(
        views.subrange(from, limit),
    ) + missing(t, from, limit));
}

/// The tokens of a range that starts with a block that is closed are the
/// opening token, the tokens of what the block holds, the closing token,
/// and the tokens of the rest of the range.
proof fn lemma_flat_closed_block(
    t: Seq<Token>,
    from: int,
    limit: int,
    value: ComponentValue,
    inner: Seq<TokenView>,
    rest: Seq<TokenView>,
)
    requires
        0 <= from < limit <= t.len(),
        t[from].spec_opening() is Some,
        close_of(t, from) < limit,
        value_tokens(value) == seq![t[from]@] + inner + seq![closing_view(
            t[from].spec_opening()->0,
        )],
        flat_as(inner, t, from + 1, close_of(t, from)),
        flat_as(rest, t, close_of(t, from) + 1, limit),
    ensures
        without_comments(value_tokens(value)) + without_comments(rest) == without_comments(
            views_of(t).subrange(from, limit),
        ) + missing(t, from, limit),
{
    let views = views_of(t);
    let kind = t[from].spec_opening()->0;
    let c = close_of(t, from);
    lemma_value_end(t, from);
    lemma_block_close(t, from + 1, kind);
    assert(t[c].spec_closing() == Some(kind));
    assert(views[c] == t[c]@);
    assert(views[c] == closing_view(kind));
    assert(views[from] == t[from]@);
    let a = seq![views[from]];
    let b = views.subrange(from + 1, c);
    let d = seq![views[c]];
    let e = views.subrange(c + 1, limit);
    assert(views.subrange(from, limit) =~= a + b + d + e);
    lemma_without_comments_add(a + b + d, e);
    lemma_without_comments_add(a + b, d);
    lemma_without_comments_add(a, b);
    lemma_without_comments_one(views[from]);
    lemma_without_comments_one(views[c]);
    lemma_without_comments_add(a + inner, d);
    lemma_without_comments_add(a, inner);
    assert(missing(t, from + 1, c) =~= Seq::<TokenView>::empty());
    assert(missing(t, from, limit) == missing(t, c + 1, limit));
    assert(without_comments(value_tokens(value)) + without_comments(rest) =~= without_comments(
        views.subrange(from, limit),
    ) + missing(t, from, limit));
}

/// The tokens of a range that starts with a block that is left open are
/// the opening token, the tokens of what the block holds, and the closing
/// token that the block lacks.
proof fn lemma_flat_open_block(
    t: Seq<Token>,
    from: int,
    value: ComponentValue,
    inner: Seq<TokenView>,
    rest: Seq<TokenView>,
)
    requires
        0 <= from < t.len(),
        t[from].spec_opening() is Some,
        close_of(t, from) >= t.len(),
        value_tokens(value) == seq![t[from]@] + inner + seq![closing_view(
            t[from].spec_opening()->0,
        )],
        flat_as(inner, t, from + 1, t.len() as int),
        without_comments(rest) == Seq::<TokenView>::empty(),
    ensures
        without_comments(value_tokens(value)) + without_comments(rest) == without_comments(
            views_of(t).subrange(from, t.len() as int),
        ) + missing(t, from, t.len() as int),
{
    let views = views_of(t);
    let kind = t[from].spec_opening()->0;
    let limit = t.len() as int;
    assert(views[from] == t[from]@);
    let a = seq![views[from]];
    let b = views.subrange(from + 1, limit);
    let d = seq![closing_view(kind)];
    lemma_subrange_front(views, from, limit);
    lemma_without_comments_add(a, b);
    lemma_without_comments_one(views[from]);
    lemma_without_comments_one(closing_view(kind));
    lemma_without_comments_add(a + inner, d);
    lemma_without_comments_add(a, inner);
    assert(missing(t, from, limit) == missing_from(t, from + 1).push(closing_view(kind)));
    assert(without_comments(value_tokens(value)) + without_comments(rest) =~= without_comments(
        views.subrange(from, limit),
    ) + missing(t, from, limit));
}

/// The tokens of what a block holds.
pub open spec fn inner_tokens(value: ComponentValue) -> Seq<TokenView> {
    match value {
        ComponentValue::Function(_, arguments) => values_tokens(arguments@),
        ComponentValue::ParenthesisBlock(content) => values_tokens(content@),
        ComponentValue::SquareBracketBlock(content) => values_tokens(content@),
        ComponentValue::CurlyBracketBlock(content) => nodes_tokens(content@),
        _ => Seq::empty(),
    }
}

/// The tokens of what a block holds are, without the comments, the tokens
/// between its opening token and the end of the block, with the closing
/// tokens that these lack.
pub proof fn lemma_flat_children(
    value: ComponentValue,
    t: Seq<Token>,
    locations: Seq<SourceLocation>,
    from: int,
    limit: int,
    inner: int,
)
    requires
        value_represents(value, t, locations, from, limit),
        0 <= from < limit <= t.len(),
        t[from].spec_opening() is Some,
        inner == inner_limit(t, from, limit),
        from + 1 <= inner <= t.len(),
        reaches(t, from + 1, inner),
    ensures
        flat_as(inner_tokens(value), t, from + 1, inner),
        value_tokens(value) == seq![t[from]@] + inner_tokens(value) + seq![closing_view(
            t[from].spec_opening()->0,
        )],
    decreases inner - from, 0int,
{
    match t[from] {
        Token::Function(name) => {
            lemma_flat_values(value->Function_1@, t, locations, from + 1, inner);
        },
        Token::ParenthesisBlock => {
            lemma_flat_values(value->ParenthesisBlock_0@, t, locations, from + 1, inner);
        },
        Token::SquareBracketBlock => {
            lemma_flat_values(value->SquareBracketBlock_0@, t, locations, from + 1, inner);
        },
        Token::CurlyBracketBlock => {
            lemma_flat_nodes(value->CurlyBracketBlock_0@, t, locations, from + 1, inner);
        },
        _ => {},
    }
}

/// The tokens of the component values of a range are, without the
/// comments, the tokens of the range, with the closing tokens that the
/// range lacks.
pub proof fn lemma_flat_values(
    values: Seq<ComponentValue>,
    t: Seq<Token>,
    locations: Seq<SourceLocation>,
    from: int,
    limit: int,
)
    requires
        values_represent(values, t, locations, from, limit),
        0 <= from <= limit <= t.len(),
        reaches(t, from, limit),
    ensures
        flat_as(values_tokens(values), t, from, limit),
    decreases limit - from, 1int,
{
    let views = views_of(t);
    if from == limit {
        assert(values.len() == 0);
        assert(views.subrange(from, limit) =~= Seq::<TokenView>::empty());
    } else if t[from] is Comment {
        lemma_represent_after_comment(values, t, locations, from, limit);
        lemma_value_end(t, from);
        lemma_flat_values(values, t, locations, from + 1, limit);
        lemma_subrange_front(views, from, limit);
        lemma_without_comments_add(seq![views[from]], views.subrange(from + 1, limit));
        lemma_without_comments_one(views[from]);
        assert(views[from] == t[from]@);
        assert(missing(t, from, limit) == missing(t, from + 1, limit));
        assert(without_comments(views.subrange(from, limit)) =~= without_comments(
            views.subrange(from + 1, limit),
        ));
    } else {
        lemma_represent_front(values, t, locations, from, limit);
        lemma_value_end(t, from);
        let value = values[0];
        let rest = values.skip(1);
        let next = value_end(t, from);
        assert(step(t, from, limit) == next);
        lemma_values_tokens_front(values);
        lemma_flat_values(rest, t, locations, next, limit);
        if t[from].spec_opening() is None {
            lemma_flat_atom(t, from, limit, value, values_tokens(rest));
        } else {
            let kind = t[from].spec_opening()->0;
            let c = close_of(t, from);
            lemma_block_close(t, from + 1, kind);
            if c < t.len() {
                lemma_reaches_close(t, from + 1, kind);
                lemma_flat_children(value, t, locations, from, limit, c);
                lemma_flat_closed_block(
                    t,
                    from,
                    limit,
                    value,
                    inner_tokens(value),
                    values_tokens(rest),
                );
            } else {
                lemma_reaches_end(t, from + 1);
                lemma_flat_children(value, t, locations, from, limit, limit);
                assert(rest.len() == 0);
                lemma_flat_open_block(t, from, value, inner_tokens(value), values_tokens(rest));
            }
        }
    }
}

/// As `lemma_flat_values`, for nodes.
pub proof fn lemma_flat_nodes(
    nodes: Seq<Node>,
    t: Seq<Token>,
    locations: Seq<SourceLocation>,
    from: int,
    limit: int,
)
    requires
        nodes_represent(nodes, t, locations, from, limit),
        0 <= from <= limit <= t.len(),
        reaches(t, from, limit),
    ensures
        flat_as(nodes_tokens(nodes), t, from, limit),
    decreases limit - from, 1int,
{
    let views = views_of(t);
    if from == limit {
        assert(nodes.len() == 0);
        assert(views.subrange(from, limit) =~= Seq::<TokenView>::empty());
    } else if t[from] is Comment {
        lemma_represent_after_comment_nodes(nodes, t, locations, from, limit);
        lemma_value_end(t, from);
        lemma_flat_nodes(nodes, t, locations, from + 1, limit);
        lemma_subrange_front(views, from, limit);
        lemma_without_comments_add(seq![views[from]], views.subrange(from + 1, limit));
        lemma_without_comments_one(views[from]);
        assert(views[from] == t[from]@);
        assert(missing(t, from, limit) == missing(t, from + 1, limit));
        assert(without_comments(views.subrange(from, limit)) =~= without_comments(
            views.subrange(from + 1, limit),
        ));
    } else {
        lemma_represent_front_nodes(nodes, t, locations, from, limit);
        lemma_value_end(t, from);
        let value = nodes[0].0;
        let rest = nodes.skip(1);
        let next = value_end(t, from);
        assert(step(t, from, limit) == next);
        lemma_nodes_tokens_front(nodes);
        lemma_flat_nodes(rest, t, locations, next, limit);
        if t[from].spec_opening() is None {
            lemma_flat_atom(t, from, limit, value, nodes_tokens(rest));
        } else {
            let kind = t[from].spec_opening()->0;
            let c = close_of(t, from);
            lemma_block_close(t, from + 1, kind);
            if c < t.len() {
                lemma_reaches_close(t, from + 1, kind);
                lemma_flat_children(value, t, locations, from, limit, c);
                lemma_flat_closed_block(
                    t,
                    from,
                    limit,
                    value,
                    inner_tokens(value),
                    nodes_tokens(rest),
                );
            } else {
                lemma_reaches_end(t, from + 1);
                lemma_flat_children(value, t, locations, from, limit, limit);
                assert(rest.len() == 0);
                lemma_flat_open_block(t, from, value, inner_tokens(value), nodes_tokens(rest));
            }
        }
    }
}

/// What is read, written and read again is what was read.
///
/// Let `values` be the component values that are made of the tokens `t` of
/// the text `input`. Then the text that is written for them needs no
/// normalizing, and its tokens are the tokens of the values, with an
/// empty comment for each separator. Comments left aside, these are the
/// tokens of `input` and then the closing tokens of the blocks that
/// `input` leaves open.
pub proof fn lemma_values_round_trip(
    input: Seq<char>,
    t: Seq<Token>,
    locations: Seq<SourceLocation>,
    values: Seq<ComponentValue>,
)
    requires
        views_of(t) == tokens_of(normalized(input)),
        values_represent(values, t, locations, 0, t.len() as int),
    ensures
        well_formed_values(values),
        normalized(values_text(values)) == values_text(values),
        tokens_of(values_text(values)) == values_tokens(values),
        without_comments(tokens_of(normalized(values_text(values)))) == without_comments(
            tokens_of(normalized(input)),
        ) + missing_from(t, 0),
{
    let s = normalized(input);
    let views = views_of(t);
    let len = t.len() as int;
    lemma_normalized_is_normalized(input, 0);
    lemma_tokens_ok(s, 0);
    lemma_values_well_formed(values, t, locations, 0, len);
    lemma_round_trip(values);
    lemma_values_text_normalized(values);
    lemma_normalized_idempotent(values_text(values), 0);
    assert(values_text(values).skip(0) =~= values_text(values));
    lemma_reaches_end(t, 0);
    lemma_flat_values(values, t, locations, 0, len);
    assert(views.subrange(0, len) =~= views);
}

/// As `lemma_values_round_trip`, for nodes.
pub proof fn lemma_nodes_round_trip(
    input: Seq<char>,
    t: Seq<Token>,
    locations: Seq<SourceLocation>,
    nodes: Seq<Node>,
)
    requires
        views_of(t) == tokens_of(normalized(input)),
        nodes_represent(nodes, t, locations, 0, t.len() as int),
    ensures
        well_formed_nodes(nodes),
        normalized(nodes_text(nodes)) == nodes_text(nodes),
        tokens_of(nodes_text(nodes)) == nodes_tokens(nodes),
        without_comments(tokens_of(normalized(nodes_text(nodes)))) == without_comments(
            tokens_of(normalized(input)),
        ) + missing_from(t, 0),
{
    let s = normalized(input);
    let views = views_of(t);
    let len = t.len() as int;
    lemma_normalized_is_normalized(input, 0);
    lemma_tokens_ok(s, 0);
    lemma_nodes_well_formed(nodes, t, locations, 0, len);
    lemma_round_trip_nodes(nodes);
    lemma_nodes_text_normalized(nodes);
    lemma_normalized_idempotent(nodes_text(nodes), 0);
    assert(nodes_text(nodes).skip(0) =~= nodes_text(nodes));
    lemma_reaches_end(t, 0);
    lemma_flat_nodes(nodes, t, locations, 0, len);
    assert(views.subrange(0, len) =~= views);
}

} // verus!
