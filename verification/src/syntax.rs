//! Parsers that keep everything: rules and declarations as the component
//! values they are made of.

use vstd::prelude::*;
use crate::ast::{
    AtRule, ComponentValue, Declaration, DeclarationListItem, ErrorReason, Node, Rule,
    SourceLocation, SyntaxError,
};
use crate::chars::lowercase;
use crate::parser::{
    at_stop, significant_from, step, stop_index, Delimiter, Delimiters, Parser, SourcePosition,
};
use crate::lexical::{token_starts_of, tokens_of};
use crate::round_trip::{leaves_line_feed, well_formed_nodes};
use crate::rules_and_declarations::{parse_important, AtRuleParser, AtRuleType, DeclarationParser};
use crate::source::{lemma_normalized_is_normalized, location_at, normalized};
use crate::token::Token;
use crate::token_laws::lemma_tokens_ok;
use crate::token_list::{views_of, TokenList};
use crate::tree_laws::lemma_nodes_well_formed;
use crate::tree::{nodes_in, nodes_represent, values_represent};

verus! {

broadcast use Parser::lemma_of;

/// Whether `list` holds the tokens of the text `input`, each with the place
/// where it starts.
pub open spec fn tokens_match(list: TokenList, input: Seq<char>) -> bool {
    let text = normalized(input);
    &&& views_of(list.tokens()) == tokens_of(text)
    &&& list.locations().len() == list.tokens().len()
    &&& forall|k: int|
        0 <= k < list.tokens().len() ==> #[trigger] list.locations()[k] == location_at(
            text,
            token_starts_of(text)[k],
        )
    &&& list.end_location() == location_at(text, text.len() as int)
}

/// The component values of a text, each with the line and column where it
/// starts.
///
/// The values are such that what is written for them is read back: they
/// are well formed, and the last of them leaves no line feed.
pub fn tokenize(input: &str) -> (r: Vec<Node>)
    ensures
        exists|list: TokenList| #[trigger]
            tokens_match(list, input@) && nodes_represent(
                r@,
                list.tokens(),
                list.locations(),
                0,
                list.tokens().len() as int,
            ),
        well_formed_nodes(r@),
        !(r@.len() > 0 && leaves_line_feed(r@.last().0)),
{
    let list = TokenList::new(input);
    let r = nodes_in(&list, 0, list.len());
    assert(tokens_match(list, input@));
    proof {
        lemma_normalized_is_normalized(input@, 0);
        lemma_tokens_ok(normalized(input@), 0);
        lemma_nodes_well_formed(
            r@,
            list.tokens(),
            list.locations(),
            0,
            list.tokens().len() as int,
        );
    }
    r
}

/// The location of the token before `index`, or of the first token where
/// there is none before it.
pub open spec fn location_before(list: &TokenList, index: int) -> SourceLocation {
    if 0 < index <= list.tokens().len() {
        list.locations()[index - 1]
    } else if index < list.tokens().len() {
        list.locations()[index]
    } else {
        list.end_location()
    }
}

fn previous_location(input: &Parser) -> (r: SourceLocation)
    ensures
        r == location_before(input.list(), input.index()),
{
    let position = input.position();
    if position.0 > 0 {
        input.location_of(SourcePosition(position.0 - 1))
    } else {
        input.source_location()
    }
}

/// Whether `rule` is the at-rule `name` read from a parser `before` that
/// stands after the name: its prelude is everything up to the end of the
/// scope, and it has no block yet.
pub open spec fn at_rule_prelude_read(rule: AtRule, name: Seq<char>, before: Parser) -> bool {
    &&& rule.location == location_before(before.list(), before.index())
    &&& rule.name@ == name
    &&& values_represent(
        rule.prelude@,
        before.tokens(),
        before.list().locations(),
        before.index(),
        stop_index(before.tokens(), before.index(), before.limit(), before.stops()),
    )
    &&& rule.block is None
}

/// Reads the prelude of the at-rule `name` to the end of the scope.
pub fn read_at_rule_prelude(name: &str, input: &mut Parser) -> (r: AtRule)
    ensures
        final(input).same_scope(old(input)),
        final(input).index() == stop_index(
            old(input).tokens(),
            old(input).index(),
            old(input).limit(),
            old(input).stops(),
        ),
        at_rule_prelude_read(r, name@, *old(input)),
{
    let location = previous_location(input);
    let prelude = input.values_to_end();
    AtRule { location, name: name.to_owned(), prelude, block: None }
}

/// Whether `rule` is `prelude` with the block that a parser `before` reads
/// to the end of its scope.
pub open spec fn at_rule_block_read(rule: AtRule, prelude: AtRule, before: Parser) -> bool {
    &&& rule.location == prelude.location
    &&& rule.name == prelude.name
    &&& rule.prelude == prelude.prelude
    &&& rule.block is Some
    &&& nodes_represent(
        rule.block->0@,
        before.tokens(),
        before.list().locations(),
        before.index(),
        stop_index(before.tokens(), before.index(), before.limit(), before.stops()),
    )
}

/// Reads the block of an at-rule to the end of the scope.
pub fn read_at_rule_block(prelude: AtRule, input: &mut Parser) -> (r: AtRule)
    ensures
        final(input).same_scope(old(input)),
        final(input).index() == stop_index(
            old(input).tokens(),
            old(input).index(),
            old(input).limit(),
            old(input).stops(),
        ),
        at_rule_block_read(r, prelude, *old(input)),
{
    let block = input.nodes_to_end();
    AtRule {
        location: prelude.location,
        name: prelude.name,
        prelude: prelude.prelude,
        block: Some(block),
    }
}

/// Reads rules as they stand: a qualified rule with its prelude and its
/// block, an at-rule with its name, its prelude and the block it may have.
/// Nothing is refused.
///
/// What it makes of at-rules stands here, and what it makes of qualified
/// rules in [`crate::qualified_rules`].
pub struct RuleTreeParser;

impl AtRuleParser for RuleTreeParser {
    type Prelude = AtRule;

    type AtRule = Rule;

    /// Every at-rule may have a block. The prelude is everything up to the
    /// end of the scope, and the parser is then there.
    fn parse_prelude(&self, name: &str, input: &mut Parser) -> (r: Result<
        AtRuleType<Self::Prelude, Self::AtRule>,
        (),
    >)
        ensures
            r is Ok,
            r->Ok_0 is OptionalBlock,
            at_rule_prelude_read(r->Ok_0->OptionalBlock_0, name@, *old(input)),
            final(input).same_scope(old(input)),
            final(input).index() == stop_index(
                old(input).tokens(),
                old(input).index(),
                old(input).limit(),
                old(input).stops(),
            ),
    {
        Ok(AtRuleType::OptionalBlock(read_at_rule_prelude(name, input)))
    }

    /// The rule is the prelude with everything inside the block, and the
    /// parser is then at the end of the block.
    fn parse_block(&self, prelude: Self::Prelude, input: &mut Parser) -> (r: Result<
        Self::AtRule,
        (),
    >)
        ensures
            r is Ok,
            r->Ok_0 is AtRule,
            at_rule_block_read(r->Ok_0->AtRule_0, prelude, *old(input)),
            final(input).same_scope(old(input)),
            final(input).index() == stop_index(
                old(input).tokens(),
                old(input).index(),
                old(input).limit(),
                old(input).stops(),
            ),
    {
        Ok(Rule::AtRule(read_at_rule_block(prelude, input)))
    }

    /// The rule is the prelude, with no block.
    fn rule_without_block(&self, prelude: Self::Prelude) -> (r: Self::AtRule)
        ensures
            r == Rule::AtRule(prelude),
    {
        Rule::AtRule(prelude)
    }
}

/// `values` without the whitespace at its end.
pub open spec fn without_trailing_whitespace(values: Seq<ComponentValue>) -> Seq<ComponentValue>
    decreases values.len(),
{
    if values.len() > 0 && values.last() is WhiteSpace {
        without_trailing_whitespace(values.drop_last())
    } else {
        values
    }
}

/// The index at which the whitespace and comments that end before `i`
/// start.
pub open spec fn trivia_start(t: Seq<Token>, i: int) -> int
    decreases i,
{
    if 0 < i <= t.len() && t[i - 1].spec_is_trivia() {
        trivia_start(t, i - 1)
    } else {
        i
    }
}

/// The index of the name of the declaration whose value starts at `i`: of
/// the identifier before the `:` before `i`, whitespace and comments left
/// aside.
pub open spec fn declaration_name_index(t: Seq<Token>, i: int) -> Option<int> {
    let colon = trivia_start(t, i);
    let name = trivia_start(t, colon - 1);
    if 0 < colon <= t.len() && t[colon - 1] is Colon && 0 < name <= t.len() && t[name - 1]
        is Ident {
        Some(name - 1)
    } else {
        None
    }
}

fn find_trivia_start(input: &Parser, i: usize) -> (r: usize)
    requires
        i <= input.tokens().len(),
    ensures
        r == trivia_start(input.tokens(), i as int),
        r <= i,
{
    let mut k: usize = i;
    while k > 0
        invariant
            k <= i <= input.tokens().len(),
            trivia_start(input.tokens(), i as int) == trivia_start(input.tokens(), k as int),
        decreases k,
    {
        match input.token_at(SourcePosition(k - 1)) {
            Some(token) => {
                if !token.is_trivia() {
                    return k;
                }
            },
            None => {
                return k;
            },
        }
        k = k - 1;
    }
    k
}

/// The place of a declaration whose value starts where `input` stands:
/// that of its name, or that of the value where no name and `:` stand
/// before it.
pub fn declaration_location(input: &Parser) -> (r: SourceLocation)
    ensures
        r == match declaration_name_index(input.tokens(), input.index()) {
            Some(k) => input.list().locations()[k],
            None => if input.index() < input.tokens().len() {
                input.list().locations()[input.index()]
            } else {
                input.list().end_location()
            },
        },
{
    let position = input.position();
    let colon = find_trivia_start(input, position.0);
    if colon > 0 {
        if let Some(Token::Colon) = input.token_at(SourcePosition(colon - 1)) {
            let name = find_trivia_start(input, colon - 1);
            if name > 0 {
                if let Some(Token::Ident(_)) = input.token_at(SourcePosition(name - 1)) {
                    return input.location_of(SourcePosition(name - 1));
                }
            }
        }
    }
    input.source_location()
}

/// Whether `!important` stands at `bang` and nothing but whitespace and
/// comments after it: the token at `bang` is `!`, the next an identifier
/// that reads `important` in any ASCII case, and the scope ends after it.
pub open spec fn important_at(t: Seq<Token>, bang: int, limit: int, stops: Delimiters) -> bool {
    let word = significant_from(t, step(t, bang, limit), limit, true);
    let end = significant_from(t, step(t, word, limit), limit, true);
    &&& !at_stop(t, bang, limit, stops)
    &&& t[bang] == Token::Delim('!')
    &&& !at_stop(t, word, limit, stops)
    &&& t[word] is Ident
    &&& lowercase(t[word]->Ident_0@) == lowercase("important"@)
    &&& at_stop(t, end, limit, stops)
}

/// Whether `r` is what reading the value of the declaration `name` gives,
/// with the parser `before` where the value starts and `end` the index at
/// which the reading ends.
///
/// The value is everything from the first token that is neither whitespace
/// nor a comment up to the first `!` or the end of the scope, without the
/// whitespace at its end. A `!` must start `!important` and end the
/// declaration with it: then the declaration is important, and otherwise
/// it is invalid.
pub open spec fn declaration_read(
    name: Seq<char>,
    before: Parser,
    end: int,
    r: Result<Declaration, ()>,
) -> bool {
    let t = before.tokens();
    let limit = before.limit();
    let stops = before.stops();
    let start = significant_from(t, before.index(), limit, true);
    let bang = stop_index(t, start, limit, stops.spec_union(Delimiters::spec_of(Delimiter::Bang)));
    let plain = at_stop(t, bang, limit, stops);
    &&& r is Ok <==> plain || important_at(t, bang, limit, stops)
    &&& r is Ok ==> {
        &&& r->Ok_0.name@ == name
        &&& r->Ok_0.important == !plain
        &&& r->Ok_0.location == match declaration_name_index(t, before.index()) {
            Some(k) => before.list().locations()[k],
            None => if before.index() < t.len() {
                before.list().locations()[before.index()]
            } else {
                before.list().end_location()
            },
        }
        &&& exists|values: Seq<ComponentValue>| #[trigger]
            values_represent(values, t, before.list().locations(), start, bang) && r->Ok_0.value@
                == without_trailing_whitespace(values)
        &&& at_stop(t, significant_from(t, end, limit, true), limit, stops)
    }
}

/// Reads the value of the declaration `name` to the end of the scope, as
/// `declaration_read` says.
pub fn read_declaration(name: &str, input: &mut Parser) -> (r: Result<Declaration, ()>)
    ensures
        final(input).same_scope(old(input)),
        declaration_read(name@, *old(input), final(input).index(), r),
{
    let location = declaration_location(input);
    input.skip_whitespace();
    let bang = Delimiters::of(Delimiter::Bang);
    let mut scope = input.delimited(bang);
    let mut value = scope.values_to_end();
    let ghost values = value@;
    input.skip_until_before(bang);
    while value.len() > 0 && matches!(value[value.len() - 1], ComponentValue::WhiteSpace)
        invariant
            without_trailing_whitespace(values) == without_trailing_whitespace(value@),
        decreases value@.len(),
    {
        let ghost before = value@;
        value.pop();
        assert(value@ =~= before.drop_last());
    }
    let important = if input.is_exhausted() {
        false
    } else {
        match parse_important(input) {
            Ok(()) => {
                if !input.is_exhausted() {
                    return Err(());
                }
                true
            },
            Err(()) => {
                return Err(());
            },
        }
    };
    Ok(Declaration { location, name: name.to_owned(), value, important })
}

/// Reads the items of a declaration list as they stand: a declaration
/// with its name, its value and whether it is important, an at-rule with
/// its name, its prelude and the block it may have.
pub struct DeclarationTreeParser;

impl DeclarationParser for DeclarationTreeParser {
    type Declaration = DeclarationListItem;

    /// The declaration that `read_declaration` reads.
    fn parse_value(&self, name: &str, input: &mut Parser) -> (r: Result<Self::Declaration, ()>)
        ensures
            final(input).same_scope(old(input)),
            r is Ok ==> r->Ok_0 is Declaration,
            declaration_read(
                name@,
                *old(input),
                final(input).index(),
                match r {
                    Ok(item) => Ok(item->Declaration_0),
                    Err(_) => Err(()),
                },
            ),
    {
        match read_declaration(name, input) {
            Ok(declaration) => Ok(DeclarationListItem::Declaration(declaration)),
            Err(()) => Err(()),
        }
    }
}

impl AtRuleParser for DeclarationTreeParser {
    type Prelude = AtRule;

    type AtRule = DeclarationListItem;

    /// Every at-rule may have a block. The prelude is everything up to the
    /// end of the scope.
    fn parse_prelude(&self, name: &str, input: &mut Parser) -> (r: Result<
        AtRuleType<Self::Prelude, Self::AtRule>,
        (),
    >)
        ensures
            r is Ok,
            r->Ok_0 is OptionalBlock,
            at_rule_prelude_read(r->Ok_0->OptionalBlock_0, name@, *old(input)),
            final(input).same_scope(old(input)),
            final(input).index() == stop_index(
                old(input).tokens(),
                old(input).index(),
                old(input).limit(),
                old(input).stops(),
            ),
    {
        Ok(AtRuleType::OptionalBlock(read_at_rule_prelude(name, input)))
    }

    /// The rule is the prelude with everything inside the block.
    fn parse_block(&self, prelude: Self::Prelude, input: &mut Parser) -> (r: Result<
        Self::AtRule,
        (),
    >)
        ensures
            r is Ok,
            r->Ok_0 is DeclAtRule,
            at_rule_block_read(r->Ok_0->DeclAtRule_0, prelude, *old(input)),
            final(input).same_scope(old(input)),
            final(input).index() == stop_index(
                old(input).tokens(),
                old(input).index(),
                old(input).limit(),
                old(input).stops(),
            ),
    {
        Ok(DeclarationListItem::DeclAtRule(read_at_rule_block(prelude, input)))
    }

    /// The rule is the prelude, with no block.
    fn rule_without_block(&self, prelude: Self::Prelude) -> (r: Self::AtRule)
        ensures
            r == DeclarationListItem::DeclAtRule(prelude),
    {
        DeclarationListItem::DeclAtRule(prelude)
    }
}

/// The index of the first node at or after `i` that is not whitespace, or
/// the number of nodes when only whitespace is left.
pub open spec fn skip_whitespace_nodes(s: Seq<Node>, i: int) -> int
    decreases s.len() - i,
{
    if i < 0 || i >= s.len() {
        s.len() as int
    } else if s[i].0 is WhiteSpace {
        skip_whitespace_nodes(s, i + 1)
    } else {
        i
    }
}

fn next_node(nodes: &Vec<Node>, i: usize) -> (r: usize)
    requires
        i <= nodes@.len(),
    ensures
        r == skip_whitespace_nodes(nodes@, i as int),
        i <= r <= nodes@.len(),
{
    let mut k: usize = i;
    while k < nodes.len() && matches!(nodes[k].0, ComponentValue::WhiteSpace)
        invariant
            i <= k <= nodes@.len(),
            skip_whitespace_nodes(nodes@, i as int) == skip_whitespace_nodes(nodes@, k as int),
        decreases nodes@.len() - k,
    {
        k = k + 1;
    }
    k
}

/// The one component value among the nodes, whitespace left aside.
///
/// Fails with `ErrEmptyInput`, at the start of the text, where there is
/// nothing but whitespace, and with `ErrExtraInput`, at the place of the
/// second value, where there is more than one.
pub fn parse_one_component_value(nodes: Vec<Node>) -> (r: Result<ComponentValue, SyntaxError>)
    ensures
        ({
            let first = skip_whitespace_nodes(nodes@, 0);
            let second = skip_whitespace_nodes(nodes@, first + 1);
            r == if first >= nodes@.len() {
                Err::<ComponentValue, _>(
                    SyntaxError {
                        location: SourceLocation { line: 1, column: 1 },
                        reason: ErrorReason::ErrEmptyInput,
                    },
                )
            } else if second < nodes@.len() {
                Err(SyntaxError { location: nodes@[second].1, reason: ErrorReason::ErrExtraInput })
            } else {
                Ok(nodes@[first].0)
            }
        }),
{
    let first = next_node(&nodes, 0);
    if first >= nodes.len() {
        return Err(
            SyntaxError {
                location: SourceLocation { line: 1, column: 1 },
                reason: ErrorReason::ErrEmptyInput,
            },
        );
    }
    let second = next_node(&nodes, first + 1);
    if second < nodes.len() {
        return Err(SyntaxError { location: nodes[second].1, reason: ErrorReason::ErrExtraInput });
    }
    let mut nodes = nodes;
    let node = nodes.swap_remove(first);
    Ok(node.0)
}

} // verus!
