//! Lists of rules and of declarations: the steps that take a list apart
//! and hand each part to the parsers that the caller supplies.

use std::ops::Range;
use vstd::prelude::*;
use crate::chars::lowercase;
use crate::parser::{
    after_stop, at_stop, lemma_stop_index, significant_from, step, stop_index, Delimiter,
    Delimiters, Parser, SourcePosition,
};
use crate::token::Token;
use crate::token_list::{left_open, lemma_value_end, open_in};

verus! {

broadcast use Parser::lemma_of;

/// Parse `!important`.
///
/// Typical usage is `input.try_parse(parse_important).is_ok()` at the end of
/// a `DeclarationParser::parse_value` implementation.
///
/// Succeeds where the next token is `!` and the one after it an identifier
/// that reads `important` in any ASCII case, and is then past both. Where
/// only the `!` is there, the parser is left after it.
pub fn parse_important(input: &mut Parser) -> (r: Result<(), ()>)
    ensures
        final(input).same_scope(old(input)),
        final(input).index() >= old(input).index(),
        ({
            let t = old(input).tokens();
            let limit = old(input).limit();
            let stops = old(input).stops();
            let bang = significant_from(t, old(input).index(), limit, true);
            let word = significant_from(t, step(t, bang, limit), limit, true);
            let has_bang = !at_stop(t, bang, limit, stops) && t[bang] == Token::Delim('!');
            let has_word = !at_stop(t, word, limit, stops) && t[word] is Ident && lowercase(
                t[word]->Ident_0@,
            ) == lowercase("important"@);
            &&& r is Ok <==> has_bang && has_word
            &&& final(input).index() == if !has_bang {
                old(input).index()
            } else if !has_word {
                step(t, bang, limit)
            } else {
                step(t, word, limit)
            }
        }),
{
    match input.expect_delim('!') {
        Ok(()) => input.expect_ident_matching("important"),
        Err(()) => Err(()),
    }
}

/// The return value for `AtRuleParser::parse_prelude`.
/// Indicates whether the at-rule is expected to have a `{ /* ... */ }` block
/// or end with a `;` semicolon.
pub enum AtRuleType<P, R> {
    /// The at-rule is expected to end with a `;` semicolon. Example: `@import`.
    ///
    /// The value is the finished representation of an at-rule
    /// as returned by `RuleListParser::next` or `DeclarationListParser::next`.
    WithoutBlock(R),
    /// The at-rule is expected to have a a `{ /* ... */ }` block. Example: `@media`
    ///
    /// The value is the representation of the "prelude" part of the rule.
    WithBlock(P),
    /// The at-rule may either have a block or end with a semicolon.
    ///
    /// The value is the representation of the "prelude" part of the rule.
    OptionalBlock(P),
}

/// A trait to provide various parsing of declaration values.
///
/// For example, there could be different implementations for property
/// declarations in style rules and for descriptors in `@font-face` rules.
pub trait DeclarationParser {
    /// The finished representation of a declaration.
    type Declaration;

    /// Parse the value of a declaration with the given `name`.
    ///
    /// Return the finished representation for the declaration
    /// as returned by `DeclarationListParser::next`,
    /// or `Err(())` to ignore the entire declaration as invalid.
    ///
    /// Declaration name matching should be case-insensitive in the ASCII range.
    ///
    /// The given `input` is a "delimited" parser
    /// that ends wherever the declaration value should end.
    /// (In declaration lists, before the next semicolon or end of the current block.)
    ///
    /// If `!important` can be used in a given context,
    /// `input.try_parse(parse_important).is_ok()` should be used at the end
    /// of the implementation of this method and the result should be part of the return value.
    fn parse_value(&self, name: &str, input: &mut Parser) -> Result<Self::Declaration, ()>;
}

/// A trait to provide various parsing of at-rules.
///
/// For example, there could be different implementations for top-level at-rules
/// (`@media`, `@font-face`, …)
/// and for page-margin rules inside `@page`.
///
/// `parse_prelude` and `parse_block` reject everything unless they are
/// given another body.
pub trait AtRuleParser {
    /// The intermediate representation of an at-rule prelude.
    type Prelude;

    /// The finished representation of an at-rule.
    type AtRule;

    /// Parse the prelude of an at-rule with the given `name`.
    ///
    /// Return the representation of the prelude and the type of at-rule,
    /// or `Err(())` to ignore the entire at-rule as invalid.
    ///
    /// The prelude is the part after the at-keyword
    /// and before the `;` semicolon or `{ /* ... */ }` block.
    ///
    /// At-rule name matching should be case-insensitive in the ASCII range.
    ///
    /// The given `input` is a "delimited" parser
    /// that ends wherever the prelude should end.
    /// (Before the next semicolon, the next `{`, or the end of the current block.)
    ///
    /// Unless it is given another body, this rejects every at-rule and
    /// leaves the parser as it is.
    fn parse_prelude(&self, name: &str, input: &mut Parser) -> (r: Result<
        AtRuleType<Self::Prelude, Self::AtRule>,
        (),
    >)
        default_ensures
            r is Err,
            *final(input) == *old(input),
    {
        let _ = name;
        let _ = input;
        Err(())
    }

    /// Parse the content of a `{ /* ... */ }` block for the body of the at-rule.
    ///
    /// Return the finished representation of the at-rule
    /// as returned by `RuleListParser::next` or `DeclarationListParser::next`,
    /// or `Err(())` to ignore the entire at-rule as invalid.
    ///
    /// This is only called when `parse_prelude` returned `WithBlock` or `OptionalBlock`,
    /// and a block was indeed found following the prelude.
    ///
    /// Unless it is given another body, this rejects every block and
    /// leaves the parser as it is.
    fn parse_block(&self, prelude: Self::Prelude, input: &mut Parser) -> (r: Result<
        Self::AtRule,
        (),
    >)
        default_ensures
            r is Err,
            *final(input) == *old(input),
    {
        let _ = prelude;
        let _ = input;
        Err(())
    }

    /// An `OptionalBlock` prelude was followed by `;` or by the end of the
    /// input.
    ///
    /// Convert the prelude into the finished representation of the at-rule
    /// as returned by `RuleListParser::next` or `DeclarationListParser::next`.
    fn rule_without_block(&self, prelude: Self::Prelude) -> Self::AtRule;
}

/// A trait to provide various parsing of qualified rules.
///
/// For example, there could be different implementations
/// for top-level qualified rules (i.e. style rules with Selectors as prelude)
/// and for qualified rules inside `@keyframes` (keyframe rules with keyframe selectors as prelude).
///
/// Both methods reject everything unless they are given another body.
pub trait QualifiedRuleParser {
    /// The intermediate representation of a qualified rule prelude.
    type Prelude;

    /// The finished representation of a qualified rule.
    type QualifiedRule;

    /// Parse the prelude of a qualified rule. For style rules, this is as Selector list.
    ///
    /// Return the representation of the prelude,
    /// or `Err(())` to ignore the entire at-rule as invalid.
    ///
    /// The prelude is the part before the `{ /* ... */ }` block.
    ///
    /// The given `input` is a "delimited" parser
    /// that ends where the prelude should end (before the next `{`).
    ///
    /// Unless it is given another body, this rejects every prelude and
    /// leaves the parser as it is.
    fn parse_prelude(&self, input: &mut Parser) -> (r: Result<Self::Prelude, ()>)
        default_ensures
            r is Err,
            *final(input) == *old(input),
    {
        let _ = input;
        Err(())
    }

    /// Parse the content of a `{ /* ... */ }` block for the body of the qualified rule.
    ///
    /// Return the finished representation of the qualified rule
    /// as returned by `RuleListParser::next`,
    /// or `Err(())` to ignore the entire at-rule as invalid.
    ///
    /// Unless it is given another body, this rejects every block and
    /// leaves the parser as it is.
    fn parse_block(&self, prelude: Self::Prelude, input: &mut Parser) -> (r: Result<
        Self::QualifiedRule,
        (),
    >)
        default_ensures
            r is Err,
            *final(input) == *old(input),
    {
        let _ = prelude;
        let _ = input;
        Err(())
    }
}

/// `;` and `{`: where the prelude of an at-rule ends.
pub open spec fn at_rule_delimiters() -> Delimiters {
    Delimiters::spec_of(Delimiter::Semicolon).spec_union(
        Delimiters::spec_of(Delimiter::CurlyBracketBlock),
    )
}

/// The index after an at-rule whose prelude starts at `i`: after the `;` or
/// the block that ends it, or where the scope ends.
pub open spec fn at_rule_end(t: Seq<Token>, i: int, limit: int, stops: Delimiters) -> int {
    after_stop(t, stop_index(t, i, limit, stops.spec_union(at_rule_delimiters())), limit, stops)
}

/// The index after a qualified rule that starts at `i`: after its block, or
/// where the scope ends.
pub open spec fn qualified_rule_end(t: Seq<Token>, i: int, limit: int, stops: Delimiters) -> int {
    after_stop(
        t,
        stop_index(
            t,
            i,
            limit,
            stops.spec_union(Delimiters::spec_of(Delimiter::CurlyBracketBlock)),
        ),
        limit,
        stops,
    )
}

/// The index after a declaration whose name ends at `i`, and after anything
/// else in a list of declarations that is neither: after the next `;`, or
/// where the scope ends.
pub open spec fn declaration_end(t: Seq<Token>, i: int, limit: int, stops: Delimiters) -> int {
    after_stop(
        t,
        stop_index(t, i, limit, stops.spec_union(Delimiters::spec_of(Delimiter::Semicolon))),
        limit,
        stops,
    )
}

/// Whether `r` is what finishing an at-rule gives when the prelude parser
/// returned `prelude`, with the parser `before` where the prelude ends
/// and `end` the index after the rule.
///
/// A rule with a block that is left open, which no token closes before the
/// input ends, is invalid, whatever its prelude and its block hold. So is
/// a rule without a block where a token from `start_position` to the end
/// of the prelude opens a block that is left open. Otherwise a rule
/// without a block is valid unless a block follows; one with a block is
/// valid only if the block follows and the block parser accepts it; one
/// that may have a block is valid before anything but a block that the
/// block parser refuses. Every error but that of the prelude ranges from
/// `start_position` to the end of the rule. That of the prelude ends where
/// the prelude ends.
pub open spec fn at_rule_outcome<P: AtRuleParser>(
    start_position: SourcePosition,
    prelude: Result<AtRuleType<<P as AtRuleParser>::Prelude, <P as AtRuleParser>::AtRule>, ()>,
    before: Parser,
    end: int,
    parser: &P,
    r: Result<<P as AtRuleParser>::AtRule, Range<SourcePosition>>,
) -> bool {
    let block_follows = before.upcoming() == Some(Token::CurlyBracketBlock);
    let opener = significant_from(before.tokens(), before.index(), before.limit(), true);
    let whole = start_position..SourcePosition(end as usize);
    let unclosed = if block_follows {
        left_open(before.tokens(), opener)
    } else {
        open_in(before.tokens(), start_position.0 as int, before.index())
    };
    match prelude {
        Ok(AtRuleType::WithoutBlock(rule)) => r == if block_follows || unclosed {
            Err(whole)
        } else {
            Ok(rule)
        },
        Ok(AtRuleType::WithBlock(p)) => if block_follows && !unclosed {
            exists|block: &mut Parser, out: Result<<P as AtRuleParser>::AtRule, ()>|
                *block == before.spec_block_at(opener) && #[trigger] call_ensures(
                    <P as AtRuleParser>::parse_block,
                    (parser, p, block),
                    out,
                ) && r == match out {
                    Ok(rule) => Ok(rule),
                    Err(_) => Err(whole),
                }
        } else {
            r == Err::<<P as AtRuleParser>::AtRule, _>(whole)
        },
        Ok(AtRuleType::OptionalBlock(p)) => if unclosed {
            r == Err::<<P as AtRuleParser>::AtRule, _>(whole)
        } else if block_follows {
            exists|block: &mut Parser, out: Result<<P as AtRuleParser>::AtRule, ()>|
                *block == before.spec_block_at(opener) && #[trigger] call_ensures(
                    <P as AtRuleParser>::parse_block,
                    (parser, p, block),
                    out,
                ) && r == match out {
                    Ok(rule) => Ok(rule),
                    Err(_) => Err(whole),
                }
        } else {
            r is Ok && call_ensures(<P as AtRuleParser>::rule_without_block, (parser, p), r->Ok_0)
        },
        Err(_) => r == Err::<<P as AtRuleParser>::AtRule, _>(
            start_position..SourcePosition(before.index() as usize),
        ),
    }
}

/// Finishes an at-rule once its prelude is read, with the parser where the
/// prelude ends. The `;` or the block that ends the rule is passed over,
/// whatever the prelude was. The block parser is not called on a block
/// that is left open.
pub fn finish_at_rule<P>(
    start_position: SourcePosition,
    prelude: Result<AtRuleType<<P as AtRuleParser>::Prelude, <P as AtRuleParser>::AtRule>, ()>,
    input: &mut Parser,
    parser: &P,
) -> (r: Result<<P as AtRuleParser>::AtRule, Range<SourcePosition>>) where P: AtRuleParser
    ensures
        final(input).same_scope(old(input)),
        final(input).index() == old(input).index_after_next(),
        final(input).index() >= old(input).index(),
        final(input).block() is None,
        at_rule_outcome(start_position, prelude, *old(input), final(input).index(), parser, r),
{
    let end_position = input.position();
    let block_follows = match input.next() {
        Some(Token::CurlyBracketBlock) => true,
        _ => false,
    };
    let unclosed = if block_follows {
        input.is_block_left_open()
    } else {
        input.has_open_block_between(start_position, end_position)
    };
    let block = if block_follows && !unclosed {
        Some(input.nested())
    } else {
        None
    };
    input.leave_block();
    match prelude {
        Ok(AtRuleType::WithoutBlock(rule)) => {
            if block_follows || unclosed {
                Err(start_position..input.position())
            } else {
                Ok(rule)
            }
        },
        Ok(AtRuleType::WithBlock(prelude)) => {
            match block {
                Some(mut block) => match parser.parse_block(prelude, &mut block) {
                    Ok(rule) => Ok(rule),
                    Err(_) => Err(start_position..input.position()),
                },
                None => Err(start_position..input.position()),
            }
        },
        Ok(AtRuleType::OptionalBlock(prelude)) => {
            match block {
                Some(mut block) => match parser.parse_block(prelude, &mut block) {
                    Ok(rule) => Ok(rule),
                    Err(_) => Err(start_position..input.position()),
                },
                None => if unclosed {
                    Err(start_position..input.position())
                } else {
                    Ok(parser.rule_without_block(prelude))
                },
            }
        },
        Err(_) => Err(start_position..end_position),
    }
}

/// Whether `r` is what reading an at-rule gives, with the parser `before`
/// after the name of the rule: what finishing the rule gives for what the
/// prelude parser returns when it is handed the name and a parser at the
/// same place that stops before the next `;` or `{`.
pub open spec fn at_rule_parsed<P: AtRuleParser>(
    start_position: SourcePosition,
    name: &str,
    before: Parser,
    parser: &P,
    r: Result<<P as AtRuleParser>::AtRule, Range<SourcePosition>>,
) -> bool {
    exists|prelude_input: &mut Parser, prelude: Result<AtRuleType<<P as AtRuleParser>::Prelude, <P as AtRuleParser>::AtRule>, ()>|
        *prelude_input == before.spec_delimited(at_rule_delimiters()) && #[trigger] call_ensures(
            <P as AtRuleParser>::parse_prelude,
            (parser, name, prelude_input),
            prelude,
        ) && at_rule_outcome(
            start_position,
            prelude,
            before.moved_to(
                stop_index(
                    before.tokens(),
                    before.index(),
                    before.limit(),
                    before.stops().spec_union(at_rule_delimiters()),
                ),
                None,
            ),
            at_rule_end(before.tokens(), before.index(), before.limit(), before.stops()),
            parser,
            r,
        )
}

/// Reads an at-rule whose name was just read: hands the prelude parser a
/// parser that stops before the next `;` or `{`, goes on to that place
/// whatever the prelude parser did, and finishes the rule there.
pub fn parse_at_rule<P>(
    start_position: SourcePosition,
    name: &str,
    input: &mut Parser,
    parser: &P,
) -> (r: Result<<P as AtRuleParser>::AtRule, Range<SourcePosition>>) where P: AtRuleParser
    ensures
        final(input).same_scope(old(input)),
        final(input).index() == at_rule_end(
            old(input).tokens(),
            old(input).index(),
            old(input).limit(),
            old(input).stops(),
        ),
        old(input).index() <= final(input).index() <= old(input).limit(),
        final(input).block() is None,
        at_rule_parsed(start_position, name, *old(input), parser, r),
{
    let delimiters = Delimiters::of(Delimiter::Semicolon).union(
        Delimiters::of(Delimiter::CurlyBracketBlock),
    );
    let mut prelude_input = input.delimited(delimiters);
    let prelude = parser.parse_prelude(name, &mut prelude_input);
    input.skip_until_before(delimiters);
    proof {
        input.lemma_parts();
    }
    finish_at_rule(start_position, prelude, input, parser)
}

/// Whether `r` is what finishing a qualified rule gives when the prelude
/// parser returned `prelude`, with the parser `before` where the prelude
/// ends.
///
/// The rule is invalid where no block follows the prelude, where the block
/// is left open, which is to say that no token closes it before the input
/// ends, and where the prelude is invalid. Otherwise it is what the block
/// parser makes of the prelude and the block.
pub open spec fn qualified_rule_outcome<P: QualifiedRuleParser>(
    prelude: Result<<P as QualifiedRuleParser>::Prelude, ()>,
    before: Parser,
    parser: &P,
    r: Result<<P as QualifiedRuleParser>::QualifiedRule, ()>,
) -> bool {
    let block_follows = before.upcoming() == Some(Token::CurlyBracketBlock);
    let opener = significant_from(before.tokens(), before.index(), before.limit(), true);
    match prelude {
        Ok(p) => if block_follows && !left_open(before.tokens(), opener) {
            exists|block: &mut Parser|
                *block == before.spec_block_at(opener) && #[trigger] call_ensures(
                    <P as QualifiedRuleParser>::parse_block,
                    (parser, p, block),
                    r,
                )
        } else {
            r is Err
        },
        Err(_) => r is Err,
    }
}

/// Finishes a qualified rule once its prelude is read, with the parser
/// where the prelude ends. The block is passed over, whatever the prelude
/// was. The block parser is not called on a block that is left open.
pub fn finish_qualified_rule<P>(
    prelude: Result<<P as QualifiedRuleParser>::Prelude, ()>,
    input: &mut Parser,
    parser: &P,
) -> (r: Result<<P as QualifiedRuleParser>::QualifiedRule, ()>) where P: QualifiedRuleParser
    ensures
        final(input).same_scope(old(input)),
        final(input).index() == old(input).index_after_next(),
        final(input).index() >= old(input).index(),
        final(input).block() is None,
        qualified_rule_outcome(prelude, *old(input), parser, r),
{
    match input.next() {
        Some(Token::CurlyBracketBlock) => {
            let open = input.is_block_left_open();
            let mut block = input.nested();
            input.leave_block();
            match prelude {
                Ok(prelude) => if open {
                    Err(())
                } else {
                    parser.parse_block(prelude, &mut block)
                },
                Err(_) => Err(()),
            }
        },
        _ => {
            input.leave_block();
            Err(())
        },
    }
}

/// Whether `r` is what reading a qualified rule gives, with the parser
/// `before` at the start of the rule: what finishing the rule gives for
/// what the prelude parser returns when it is handed a parser at the same
/// place that stops before the next `{`.
pub open spec fn qualified_rule_parsed<P: QualifiedRuleParser>(
    before: Parser,
    parser: &P,
    r: Result<<P as QualifiedRuleParser>::QualifiedRule, ()>,
) -> bool {
    exists|prelude_input: &mut Parser, prelude: Result<<P as QualifiedRuleParser>::Prelude, ()>|
        *prelude_input == before.spec_delimited(Delimiters::spec_of(Delimiter::CurlyBracketBlock))
            && #[trigger] call_ensures(
            <P as QualifiedRuleParser>::parse_prelude,
            (parser, prelude_input),
            prelude,
        ) && qualified_rule_outcome(
            prelude,
            before.moved_to(
                stop_index(
                    before.tokens(),
                    before.index(),
                    before.limit(),
                    before.stops().spec_union(Delimiters::spec_of(Delimiter::CurlyBracketBlock)),
                ),
                None,
            ),
            parser,
            r,
        )
}

/// Reads a qualified rule: hands the prelude parser a parser that stops
/// before the next `{`, goes on to that place whatever the prelude parser
/// did, and finishes the rule there.
pub fn parse_qualified_rule<P>(input: &mut Parser, parser: &P) -> (r: Result<
    <P as QualifiedRuleParser>::QualifiedRule,
    (),
>) where P: QualifiedRuleParser
    ensures
        final(input).same_scope(old(input)),
        final(input).index() == qualified_rule_end(
            old(input).tokens(),
            old(input).index(),
            old(input).limit(),
            old(input).stops(),
        ),
        old(input).index() <= final(input).index() <= old(input).limit(),
        final(input).block() is None,
        qualified_rule_parsed(*old(input), parser, r),
{
    let delimiters = Delimiters::of(Delimiter::CurlyBracketBlock);
    let mut prelude_input = input.delimited(delimiters);
    let prelude = parser.parse_prelude(&mut prelude_input);
    input.skip_until_before(delimiters);
    proof {
        input.lemma_parts();
    }
    finish_qualified_rule(prelude, input, parser)
}

/// The index of the first token from `i` on that a list of declarations
/// does not pass over: one that is not whitespace, a comment or `;`, or
/// the one at which the scope ends.
pub open spec fn declaration_start(t: Seq<Token>, i: int, limit: int, stops: Delimiters) -> int
    decreases limit - i,
{
    if !at_stop(t, i, limit, stops) && (t[i] is WhiteSpace || t[i] is Comment || t[i]
        is Semicolon) {
        declaration_start(t, i + 1, limit, stops)
    } else {
        i
    }
}

/// The index after the item of a list of declarations that starts at `j`.
pub open spec fn declaration_item_end(t: Seq<Token>, j: int, limit: int, stops: Delimiters) -> int {
    if t[j] is AtKeyword {
        at_rule_end(t, step(t, j, limit), limit, stops)
    } else {
        declaration_end(t, step(t, j, limit), limit, stops)
    }
}

/// The indices at which the items of a list of declarations start, from
/// `i` on.
pub open spec fn declaration_starts(t: Seq<Token>, i: int, limit: int, stops: Delimiters) -> Seq<
    int,
>
    decreases limit - i,
{
    let j = declaration_start(t, i, limit, stops);
    let end = declaration_item_end(t, j, limit, stops);
    if at_stop(t, j, limit, stops) {
        Seq::empty()
    } else if i <= j < end <= limit {
        seq![j] + declaration_starts(t, end, limit, stops)
    } else {
        seq![j]
    }
}

/// The start of an item lies between where the search for it starts and
/// the limit.
pub proof fn lemma_declaration_start(t: Seq<Token>, i: int, limit: int, stops: Delimiters)
    requires
        0 <= i <= limit <= t.len(),
    ensures
        i <= declaration_start(t, i, limit, stops) <= limit,
    decreases limit - i,
{
    if !at_stop(t, i, limit, stops) && (t[i] is WhiteSpace || t[i] is Comment || t[i]
        is Semicolon) {
        lemma_declaration_start(t, i + 1, limit, stops);
    }
}

/// A list of declarations has no more items than it has tokens.
pub proof fn lemma_declaration_starts_len(t: Seq<Token>, i: int, limit: int, stops: Delimiters)
    requires
        0 <= i <= limit <= t.len(),
    ensures
        declaration_starts(t, i, limit, stops).len() <= limit - i,
    decreases limit - i,
{
    let j = declaration_start(t, i, limit, stops);
    let end = declaration_item_end(t, j, limit, stops);
    lemma_declaration_start(t, i, limit, stops);
    if !at_stop(t, j, limit, stops) && i <= j < end <= limit {
        lemma_declaration_starts_len(t, end, limit, stops);
    }
}

/// Whether `r` is what reading a declaration gives, with the parser
/// `before` after the name of the declaration.
///
/// The declaration is invalid where no `:` follows the name. Otherwise it
/// is what the value parser returns when it is handed the name and a
/// parser after the `:` that stops before the next `;`. An error ranges
/// from `start_position` to `end`.
pub open spec fn declaration_parsed<P: DeclarationParser>(
    start_position: SourcePosition,
    name: &str,
    before: Parser,
    end: int,
    parser: &P,
    r: Result<<P as DeclarationParser>::Declaration, Range<SourcePosition>>,
) -> bool {
    let scope = before.spec_delimited(Delimiters::spec_of(Delimiter::Semicolon));
    let whole = start_position..SourcePosition(end as usize);
    if scope.upcoming() == Some(Token::Colon) {
        exists|value_input: &mut Parser, out: Result<<P as DeclarationParser>::Declaration, ()>|
            *value_input == scope.moved_to(scope.after_upcoming(), None)
                && #[trigger] call_ensures(
                <P as DeclarationParser>::parse_value,
                (parser, name, value_input),
                out,
            ) && r == match out {
                Ok(declaration) => Ok(declaration),
                Err(_) => Err(whole),
            }
    } else {
        r == Err::<<P as DeclarationParser>::Declaration, _>(whole)
    }
}

/// Whether `r` is what a list of declarations gives for the item that
/// starts at `j`, with the parser `before` at `j`: a declaration where the
/// token is an identifier, an at-rule where it is an at-keyword, and
/// otherwise an error that ranges over everything up to the next `;`.
pub open spec fn declaration_item<I, P>(
    before: Parser,
    parser: &P,
    r: Result<I, Range<SourcePosition>>,
) -> bool where P: DeclarationParser<Declaration = I> + AtRuleParser<AtRule = I> {
    let t = before.tokens();
    let j = before.index();
    let start_position = SourcePosition(j as usize);
    let end = declaration_item_end(t, j, before.limit(), before.stops());
    let after_name = before.moved_to(step(t, j, before.limit()), None);
    match t[j] {
        Token::Ident(name) => exists|n: &str|
            n@ == name@ && #[trigger] declaration_parsed(
                start_position,
                n,
                after_name,
                end,
                parser,
                r,
            ),
        Token::AtKeyword(name) => exists|n: &str|
            n@ == name@ && #[trigger] at_rule_parsed(start_position, n, after_name, parser, r),
        _ => r == Err::<I, _>(start_position..SourcePosition(end as usize)),
    }
}

/// Reads the next item of a list of declarations: `Ok(_)` for a valid
/// declaration or at-rule, `Err(_)` with its range for an invalid one, and
/// nothing where only whitespace, comments and `;` are left.
///
/// Whatever the item is and whatever the parsers do, the input is then
/// after the item: after the `;` that ends it, after the block that ends
/// an at-rule, or where the scope ends.
pub fn next_declaration<I, P>(input: &mut Parser, parser: &P) -> (r: Option<
    Result<I, Range<SourcePosition>>,
>) where P: DeclarationParser<Declaration = I> + AtRuleParser<AtRule = I>
    ensures
        final(input).same_scope(old(input)),
        ({
            let t = old(input).tokens();
            let limit = old(input).limit();
            let stops = old(input).stops();
            let j = declaration_start(t, old(input).index(), limit, stops);
            if at_stop(t, j, limit, stops) {
                &&& r is None
                &&& final(input).index() == j
            } else {
                &&& r is Some
                &&& final(input).index() == declaration_item_end(t, j, limit, stops)
                &&& final(input).index() > j
                &&& declaration_item(old(input).moved_to(j, None), parser, r->0)
            }
        }),
        old(input).index() <= final(input).index() <= old(input).limit(),
        r is Some ==> old(input).index() < final(input).index(),
{
    let entry = input.position();
    loop
        invariant
            input.same_scope(&*old(input)),
            entry.0 == old(input).index(),
            entry.0 <= input.index(),
            declaration_start(
                old(input).tokens(),
                old(input).index(),
                old(input).limit(),
                old(input).stops(),
            ) == declaration_start(
                old(input).tokens(),
                input.index(),
                old(input).limit(),
                old(input).stops(),
            ),
        decreases input.limit() - input.index(),
    {
        let start_position = input.position();
        let ghost before = old(input).moved_to(start_position.0 as int, None);
        match input.next_including_whitespace_and_comments() {
            Some(Token::WhiteSpace) | Some(Token::Comment(_)) | Some(Token::Semicolon) => {},
            Some(Token::Ident(name)) => {
                proof {
                    input.lemma_parts();
                }
                let n = name.as_str();
                let delimiters = Delimiters::of(Delimiter::Semicolon);
                let mut value_input = input.delimited(delimiters);
                let colon = value_input.expect_colon();
                proof {
                    value_input.lemma_parts();
                }
                let result = match colon {
                    Ok(()) => parser.parse_value(n, &mut value_input),
                    Err(()) => Err(()),
                };
                input.skip_until_after(delimiters);
                let r = match result {
                    Ok(declaration) => Ok(declaration),
                    Err(()) => Err(start_position..input.position()),
                };
                assert(declaration_parsed(
                    start_position,
                    n,
                    before.moved_to(start_position.0 + 1, None),
                    input.index(),
                    parser,
                    r,
                ));
                assert(declaration_item_end(
                    before.tokens(),
                    before.index(),
                    before.limit(),
                    before.stops(),
                ) == input.index());
                return Some(r);
            },
            Some(Token::AtKeyword(name)) => {
                proof {
                    input.lemma_parts();
                }
                let n = name.as_str();
                let r = parse_at_rule(start_position, n, input, parser);
                assert(SourcePosition(before.index() as usize) == start_position);
                return Some(r);
            },
            Some(_) => {
                input.skip_until_after(Delimiters::of(Delimiter::Semicolon));
                return Some(Err(start_position..input.position()));
            },
            None => {
                return None;
            },
        }
    }
}

/// Walks a list of declarations: `next` hands out one item at a time, and
/// `collect` all that are left.
#[verifier::reject_recursive_types(I)]
pub struct DeclarationListParser<'i, 'a, I, P> where
    P: DeclarationParser<Declaration = I> + AtRuleParser<AtRule = I>,
 {
    /// The input given to `DeclarationListParser::new`
    pub input: &'a mut Parser<'i>,
    /// The parser given to `DeclarationListParser::new`
    pub parser: P,
}

impl<'i, 'a, I, P> DeclarationListParser<'i, 'a, I, P> where
    P: DeclarationParser<Declaration = I> + AtRuleParser<AtRule = I>,
 {
    /// Create a new `DeclarationListParser` for the given `input` and `parser`.
    ///
    /// Note that all CSS declaration lists can on principle contain at-rules.
    /// Even if no such valid at-rule exists (yet),
    /// this affects error handling: at-rules end at `{}` blocks, not just semicolons.
    ///
    /// The given `parser` therefore needs to implement
    /// both `DeclarationParser` and `AtRuleParser` traits.
    /// However, the latter can be an `impl` with a `rule_without_block` alone,
    /// since `AtRuleParser` provides bodies for its other methods.
    ///
    /// The return type for finished declarations and at-rules also needs to be the same,
    /// since `DeclarationListParser::next` can return either.
    /// It could be a custom enum.
    pub fn new(input: &'a mut Parser<'i>, parser: P) -> (r: DeclarationListParser<'i, 'a, I, P>)
        ensures
            *r.input == *old(input),
            *final(input) == *final(r.input),
            r.parser == parser,
    {
        DeclarationListParser { input, parser }
    }

    /// The next item of the list: `Ok(_)` for a valid declaration or
    /// at-rule, `Err(_)` with its range for an invalid one, and nothing
    /// where only whitespace, comments and `;` are left.
    ///
    /// Whatever the item is and whatever the parsers do, the input is then
    /// after the item: after the `;` that ends it, after the block that
    /// ends an at-rule, or where the scope ends.
    pub fn next(&mut self) -> (r: Option<Result<I, Range<SourcePosition>>>)
        ensures
            final(self).input.same_scope(&*old(self).input),
            ({
                let t = old(self).input.tokens();
                let limit = old(self).input.limit();
                let stops = old(self).input.stops();
                let j = declaration_start(t, old(self).input.index(), limit, stops);
                if at_stop(t, j, limit, stops) {
                    &&& r is None
                    &&& final(self).input.index() == j
                } else {
                    &&& r is Some
                    &&& final(self).input.index() == declaration_item_end(t, j, limit, stops)
                    &&& final(self).input.index() > j
                    &&& declaration_item(old(self).input.moved_to(j, None), &old(self).parser, r->0)
                }
            }),
            old(self).input.index() <= final(self).input.index() <= old(self).input.limit(),
            r is Some ==> old(self).input.index() < final(self).input.index(),
            final(self).parser == old(self).parser,
    {
        next_declaration(self.input, &self.parser)
    }

    /// All the items that are left in the list, in order: one for each
    /// place where `declaration_starts` finds an item. There are at most as
    /// many as there are tokens left, and then nothing but whitespace,
    /// comments and `;` is left.
    pub fn collect(&mut self) -> (r: Vec<Result<I, Range<SourcePosition>>>)
        ensures
            final(self).input.same_scope(&*old(self).input),
            final(self).parser == old(self).parser,
            ({
                let t = old(self).input.tokens();
                let limit = old(self).input.limit();
                let stops = old(self).input.stops();
                let starts = declaration_starts(t, old(self).input.index(), limit, stops);
                &&& r@.len() == starts.len()
                &&& forall|k: int|
                    0 <= k < r@.len() ==> declaration_item(
                        old(self).input.moved_to(#[trigger] starts[k], None),
                        &old(self).parser,
                        r@[k],
                    )
                &&& at_stop(t, final(self).input.index(), limit, stops)
            }),
            r@.len() <= final(self).input.index() - old(self).input.index(),
            final(self).input.index() <= old(self).input.limit(),
    {
        let mut items: Vec<Result<I, Range<SourcePosition>>> = Vec::new();
        let entry = self.input.position();
        let ghost t = self.input.tokens();
        let ghost limit = self.input.limit();
        let ghost stops = self.input.stops();
        let ghost mut starts: Seq<int> = Seq::empty();
        loop
            invariant
                self.input.same_scope(&*old(self).input),
                self.parser == old(self).parser,
                t == old(self).input.tokens(),
                limit == old(self).input.limit(),
                stops == old(self).input.stops(),
                entry.0 == old(self).input.index(),
                items@.len() <= self.input.index() - entry.0,
                0 <= self.input.index() <= limit <= t.len(),
                starts + declaration_starts(t, self.input.index(), limit, stops)
                    == declaration_starts(t, old(self).input.index(), limit, stops),
                items@.len() == starts.len(),
                forall|k: int|
                    0 <= k < items@.len() ==> declaration_item(
                        old(self).input.moved_to(#[trigger] starts[k], None),
                        &old(self).parser,
                        items@[k],
                    ),
            decreases limit - self.input.index(),
        {
            let ghost here = self.input.index();
            let ghost before = starts;
            let ghost rest = declaration_starts(t, here, limit, stops);
            proof {
                lemma_declaration_start(t, here, limit, stops);
            }
            match self.next() {
                Some(item) => {
                    proof {
                        starts = starts.push(declaration_start(t, here, limit, stops));
                    }
                    items.push(item);
                },
                None => {
                    return items;
                },
            }
        }
    }
}

/// The index of the first token from `i` on that a list of rules does not
/// pass over: one that is not whitespace or a comment, nor `<!--` or `-->`
/// at the top level of a stylesheet, or the one at which the scope ends.
pub open spec fn rule_start(
    t: Seq<Token>,
    i: int,
    limit: int,
    stops: Delimiters,
    is_stylesheet: bool,
) -> int
    decreases limit - i,
{
    if !at_stop(t, i, limit, stops) && (t[i] is WhiteSpace || t[i] is Comment || (is_stylesheet
        && (t[i] is CDO || t[i] is CDC))) {
        rule_start(t, i + 1, limit, stops, is_stylesheet)
    } else {
        i
    }
}

/// The index after the rule that starts at `j`.
pub open spec fn rule_item_end(t: Seq<Token>, j: int, limit: int, stops: Delimiters) -> int {
    if t[j] is AtKeyword {
        at_rule_end(t, step(t, j, limit), limit, stops)
    } else {
        qualified_rule_end(t, j, limit, stops)
    }
}

/// The indices at which the rules of a list start, from `i` on.
pub open spec fn rule_starts(
    t: Seq<Token>,
    i: int,
    limit: int,
    stops: Delimiters,
    is_stylesheet: bool,
) -> Seq<int>
    decreases limit - i,
{
    let j = rule_start(t, i, limit, stops, is_stylesheet);
    let end = rule_item_end(t, j, limit, stops);
    if at_stop(t, j, limit, stops) {
        Seq::empty()
    } else if i <= j < end <= limit {
        seq![j] + rule_starts(t, end, limit, stops, is_stylesheet)
    } else {
        seq![j]
    }
}

/// The start of a rule lies between where the search for it starts and the
/// limit.
pub proof fn lemma_rule_start(
    t: Seq<Token>,
    i: int,
    limit: int,
    stops: Delimiters,
    is_stylesheet: bool,
)
    requires
        0 <= i <= limit <= t.len(),
    ensures
        i <= rule_start(t, i, limit, stops, is_stylesheet) <= limit,
    decreases limit - i,
{
    if !at_stop(t, i, limit, stops) && (t[i] is WhiteSpace || t[i] is Comment || (is_stylesheet
        && (t[i] is CDO || t[i] is CDC))) {
        lemma_rule_start(t, i + 1, limit, stops, is_stylesheet);
    }
}

/// A list of rules has no more rules than it has tokens.
pub proof fn lemma_rule_starts_len(
    t: Seq<Token>,
    i: int,
    limit: int,
    stops: Delimiters,
    is_stylesheet: bool,
)
    requires
        0 <= i <= limit <= t.len(),
    ensures
        rule_starts(t, i, limit, stops, is_stylesheet).len() <= limit - i,
    decreases limit - i,
{
    let j = rule_start(t, i, limit, stops, is_stylesheet);
    let end = rule_item_end(t, j, limit, stops);
    lemma_rule_start(t, i, limit, stops, is_stylesheet);
    if !at_stop(t, j, limit, stops) && i <= j < end <= limit {
        lemma_rule_starts_len(t, end, limit, stops, is_stylesheet);
    }
}

/// Whether `r` is what a list of rules gives for the rule that starts at
/// the index of the parser `before`: an at-rule where the token there is an
/// at-keyword, and otherwise a qualified rule, whose error ranges over the
/// whole rule. Either is an error where its block is left open:
/// `lemma_open_block_is_an_error` states it.
pub open spec fn rule_item<R, P>(
    before: Parser,
    parser: &P,
    r: Result<R, Range<SourcePosition>>,
) -> bool where P: QualifiedRuleParser<QualifiedRule = R> + AtRuleParser<AtRule = R> {
    let t = before.tokens();
    let j = before.index();
    let start_position = SourcePosition(j as usize);
    let end = rule_item_end(t, j, before.limit(), before.stops());
    match t[j] {
        Token::AtKeyword(name) => exists|n: &str|
            n@ == name@ && #[trigger] at_rule_parsed(
                start_position,
                n,
                before.moved_to(step(t, j, before.limit()), None),
                parser,
                r,
            ),
        _ => exists|out: Result<R, ()>| #[trigger]
            qualified_rule_parsed(before, parser, out) && r == match out {
                Ok(rule) => Ok(rule),
                Err(_) => Err(start_position..SourcePosition(end as usize)),
            },
    }
}

/// The index at which the prelude of the rule that starts at `j` ends: for
/// an at-rule the next `;` or `{` after its name, for a qualified rule the
/// next `{`, or where the scope ends.
pub open spec fn rule_prelude_end(t: Seq<Token>, j: int, limit: int, stops: Delimiters) -> int {
    if t[j] is AtKeyword {
        stop_index(t, step(t, j, limit), limit, stops.spec_union(at_rule_delimiters()))
    } else {
        stop_index(
            t,
            j,
            limit,
            stops.spec_union(Delimiters::spec_of(Delimiter::CurlyBracketBlock)),
        )
    }
}

/// A rule whose block is left open is invalid, whatever the parsers make
/// of it. Where the `{` after the prelude of the rule at the index of
/// `before` opens a block that no token closes before the input ends, the
/// list gives an error that starts where the rule starts. It ends at the
/// limit of the scope, which for a list that reads a whole text is the
/// end of the text; only the error of an at-rule whose prelude is refused
/// ends where the prelude ends.
pub proof fn lemma_open_block_is_an_error<R, P>(
    before: Parser,
    parser: &P,
    r: Result<R, Range<SourcePosition>>,
) where P: QualifiedRuleParser<QualifiedRule = R> + AtRuleParser<AtRule = R>
    requires
        0 <= before.index() < before.limit() <= before.tokens().len() <= usize::MAX,
        rule_item(before, parser, r),
        ({
            let k = rule_prelude_end(
                before.tokens(),
                before.index(),
                before.limit(),
                before.stops(),
            );
            &&& before.index() <= k < before.limit()
            &&& !at_stop(before.tokens(), k, before.limit(), before.stops())
            &&& before.tokens()[k] is CurlyBracketBlock
            &&& left_open(before.tokens(), k)
        }),
    ensures
        r is Err,
        r->Err_0.start == SourcePosition(before.index() as usize),
        r->Err_0.end == SourcePosition(before.limit() as usize) || (before.tokens()[before.index()]
            is AtKeyword && r->Err_0.end == SourcePosition(
            rule_prelude_end(before.tokens(), before.index(), before.limit(), before.stops()) as usize,
        )),
{
    let t = before.tokens();
    let j = before.index();
    let limit = before.limit();
    let k = rule_prelude_end(t, j, limit, before.stops());
    lemma_value_end(t, k);
    assert(step(t, k, limit) == limit);
    assert(significant_from(t, k, limit, true) == k);
    let at_block = before.moved_to(k, None);
    assert(at_block.upcoming() == Some(Token::CurlyBracketBlock));
    if t[j] is AtKeyword {
        lemma_value_end(t, j);
        let after_name = before.moved_to(step(t, j, limit), None);
        assert(after_name.moved_to(k, None) == at_block);
        assert(at_rule_end(t, step(t, j, limit), limit, before.stops()) == limit);
    } else {
        assert(qualified_rule_end(t, j, limit, before.stops()) == limit);
    }
}

/// A scope that starts at a token which does not end it ends after that
/// token.
proof fn lemma_rule_advances(t: Seq<Token>, j: int, limit: int, stops: Delimiters)
    requires
        0 <= j < limit <= t.len(),
        !at_stop(t, j, limit, stops),
    ensures
        j < qualified_rule_end(t, j, limit, stops) <= limit,
{
    let extra = stops.spec_union(Delimiters::spec_of(Delimiter::CurlyBracketBlock));
    lemma_stop_index(t, j, limit, extra);
    let stop = stop_index(t, j, limit, extra);
    if stop < limit {
        lemma_value_end(t, stop);
    }
}

/// Reads the next rule of a list: `Ok(_)` for a valid rule, `Err(_)` with
/// its range for an invalid one, and nothing where only whitespace and
/// comments are left, and `<!--` and `-->` where `is_stylesheet` is set.
///
/// Whatever the rule is and whatever the parsers do, the input is then
/// after the rule: after its block, after the `;` that ends an at-rule, or
/// where the scope ends.
pub fn next_rule<R, P>(input: &mut Parser, parser: &P, is_stylesheet: bool) -> (r: Option<
    Result<R, Range<SourcePosition>>,
>) where P: QualifiedRuleParser<QualifiedRule = R> + AtRuleParser<AtRule = R>
    ensures
        final(input).same_scope(old(input)),
        ({
            let t = old(input).tokens();
            let limit = old(input).limit();
            let stops = old(input).stops();
            let j = rule_start(t, old(input).index(), limit, stops, is_stylesheet);
            if at_stop(t, j, limit, stops) {
                &&& r is None
                &&& final(input).index() == j
            } else {
                &&& r is Some
                &&& final(input).index() == rule_item_end(t, j, limit, stops)
                &&& final(input).index() > j
                &&& rule_item(old(input).moved_to(j, None), parser, r->0)
            }
        }),
        old(input).index() <= final(input).index() <= old(input).limit(),
        r is Some ==> old(input).index() < final(input).index(),
{
    let entry = input.position();
    loop
        invariant
            input.same_scope(&*old(input)),
            entry.0 == old(input).index(),
            entry.0 <= input.index(),
            rule_start(
                old(input).tokens(),
                old(input).index(),
                old(input).limit(),
                old(input).stops(),
                is_stylesheet,
            ) == rule_start(
                old(input).tokens(),
                input.index(),
                old(input).limit(),
                old(input).stops(),
                is_stylesheet,
            ),
        decreases input.limit() - input.index(),
    {
        let start_position = input.position();
        let ghost before = old(input).moved_to(start_position.0 as int, None);
        match input.next_including_whitespace_and_comments() {
            Some(Token::WhiteSpace) | Some(Token::Comment(_)) => {},
            Some(Token::AtKeyword(name)) => {
                proof {
                    input.lemma_parts();
                }
                let n = name.as_str();
                let r = parse_at_rule(start_position, n, input, parser);
                assert(at_rule_parsed(
                    SourcePosition(before.index() as usize),
                    n,
                    before.moved_to(step(before.tokens(), before.index(), before.limit()), None),
                    parser,
                    r,
                ));
                return Some(r);
            },
            Some(token) => {
                let skipped = is_stylesheet && matches!(token, Token::CDO | Token::CDC);
                if !skipped {
                    proof {
                        lemma_rule_advances(
                            before.tokens(),
                            before.index(),
                            before.limit(),
                            before.stops(),
                        );
                    }
                    input.reset(start_position);
                    proof {
                        input.lemma_parts();
                    }
                    let out = parse_qualified_rule(input, parser);
                    let r = match out {
                        Ok(rule) => Ok(rule),
                        Err(()) => Err(start_position..input.position()),
                    };
                    return Some(r);
                }
            },
            None => {
                return None;
            },
        }
    }
}

/// Walks a list of rules: `next` hands out one rule at a time, and
/// `collect` all that are left.
#[verifier::reject_recursive_types(R)]
pub struct RuleListParser<'i, 'a, R, P> where
    P: QualifiedRuleParser<QualifiedRule = R> + AtRuleParser<AtRule = R>,
 {
    /// The input given to `RuleListParser::new`
    pub input: &'a mut Parser<'i>,
    /// The parser given to `RuleListParser::new`
    pub parser: P,
    /// Whether `<!--` and `-->` are passed over between rules, as at the
    /// top level of a stylesheet.
    pub is_stylesheet: bool,
}

impl<'i, 'a, R, P> RuleListParser<'i, 'a, R, P> where
    P: QualifiedRuleParser<QualifiedRule = R> + AtRuleParser<AtRule = R>,
 {
    /// Create a new `RuleListParser` for the given `input` at the top-level of a stylesheet
    /// and the given `parser`.
    ///
    /// The given `parser` needs to implement both `QualifiedRuleParser` and `AtRuleParser` traits.
    ///
    /// The return type for finished qualified rules and at-rules also needs to be the same,
    /// since `RuleListParser::next` can return either.
    /// It could be a custom enum.
    pub fn new_for_stylesheet(input: &'a mut Parser<'i>, parser: P) -> (r: RuleListParser<
        'i,
        'a,
        R,
        P,
    >)
        ensures
            *r.input == *old(input),
            *final(input) == *final(r.input),
            r.parser == parser,
            r.is_stylesheet,
    {
        RuleListParser { input, parser, is_stylesheet: true }
    }

    /// Same is `new_for_stylesheet`, but should be used for rule lists inside a block
    /// such as the body of an `@media` rule.
    ///
    /// This differs in that `<!--` and `-->` tokens
    /// should only be ignored at the stylesheet top-level.
    /// (This is to deal with legacy work arounds for `<style>` HTML element parsing.)
    pub fn new_for_nested_rule(input: &'a mut Parser<'i>, parser: P) -> (r: RuleListParser<
        'i,
        'a,
        R,
        P,
    >)
        ensures
            *r.input == *old(input),
            *final(input) == *final(r.input),
            r.parser == parser,
            !r.is_stylesheet,
    {
        RuleListParser { input, parser, is_stylesheet: false }
    }

    /// The next rule of the list: `Ok(_)` for a valid rule, `Err(_)` with
    /// its range for an invalid one, and nothing where only whitespace and
    /// comments are left.
    ///
    /// Whatever the rule is and whatever the parsers do, the input is then
    /// after the rule: after its block, after the `;` that ends an at-rule,
    /// or where the scope ends.
    pub fn next(&mut self) -> (r: Option<Result<R, Range<SourcePosition>>>)
        ensures
            final(self).input.same_scope(&*old(self).input),
            ({
                let t = old(self).input.tokens();
                let limit = old(self).input.limit();
                let stops = old(self).input.stops();
                let j = rule_start(
                    t,
                    old(self).input.index(),
                    limit,
                    stops,
                    old(self).is_stylesheet,
                );
                if at_stop(t, j, limit, stops) {
                    &&& r is None
                    &&& final(self).input.index() == j
                } else {
                    &&& r is Some
                    &&& final(self).input.index() == rule_item_end(t, j, limit, stops)
                    &&& final(self).input.index() > j
                    &&& rule_item(old(self).input.moved_to(j, None), &old(self).parser, r->0)
                }
            }),
            old(self).input.index() <= final(self).input.index() <= old(self).input.limit(),
            r is Some ==> old(self).input.index() < final(self).input.index(),
            final(self).parser == old(self).parser,
            final(self).is_stylesheet == old(self).is_stylesheet,
    {
        next_rule(self.input, &self.parser, self.is_stylesheet)
    }

    /// All the rules that are left in the list, in order: one for each
    /// place where `rule_starts` finds a rule. There are at most as many as
    /// there are tokens left, and then nothing but what the list passes
    /// over is left.
    pub fn collect(&mut self) -> (r: Vec<Result<R, Range<SourcePosition>>>)
        ensures
            final(self).input.same_scope(&*old(self).input),
            final(self).parser == old(self).parser,
            final(self).is_stylesheet == old(self).is_stylesheet,
            ({
                let t = old(self).input.tokens();
                let limit = old(self).input.limit();
                let stops = old(self).input.stops();
                let starts = rule_starts(
                    t,
                    old(self).input.index(),
                    limit,
                    stops,
                    old(self).is_stylesheet,
                );
                &&& r@.len() == starts.len()
                &&& forall|k: int|
                    0 <= k < r@.len() ==> rule_item(
                        old(self).input.moved_to(#[trigger] starts[k], None),
                        &old(self).parser,
                        r@[k],
                    )
                &&& at_stop(t, final(self).input.index(), limit, stops)
            }),
            r@.len() <= final(self).input.index() - old(self).input.index(),
            final(self).input.index() <= old(self).input.limit(),
    {
        let mut items: Vec<Result<R, Range<SourcePosition>>> = Vec::new();
        let entry = self.input.position();
        let ghost t = self.input.tokens();
        let ghost limit = self.input.limit();
        let ghost stops = self.input.stops();
        let ghost mut starts: Seq<int> = Seq::empty();
        loop
            invariant
                self.input.same_scope(&*old(self).input),
                self.parser == old(self).parser,
                self.is_stylesheet == old(self).is_stylesheet,
                t == old(self).input.tokens(),
                limit == old(self).input.limit(),
                stops == old(self).input.stops(),
                entry.0 == old(self).input.index(),
                items@.len() <= self.input.index() - entry.0,
                0 <= self.input.index() <= limit <= t.len(),
                starts + rule_starts(t, self.input.index(), limit, stops, self.is_stylesheet)
                    == rule_starts(
                    t,
                    old(self).input.index(),
                    limit,
                    stops,
                    self.is_stylesheet,
                ),
                items@.len() == starts.len(),
                forall|k: int|
                    0 <= k < items@.len() ==> rule_item(
                        old(self).input.moved_to(#[trigger] starts[k], None),
                        &old(self).parser,
                        items@[k],
                    ),
            decreases limit - self.input.index(),
        {
            let ghost here = self.input.index();
            let ghost before = starts;
            let ghost rest = rule_starts(t, here, limit, stops, self.is_stylesheet);
            proof {
                lemma_rule_start(t, here, limit, stops, self.is_stylesheet);
            }
            match self.next() {
                Some(item) => {
                    proof {
                        starts = starts.push(
                            rule_start(t, here, limit, stops, self.is_stylesheet),
                        );
                    }
                    items.push(item);
                },
                None => {
                    return items;
                },
            }
        }
    }
}

/// Parse a single declaration, such as an `( /* ... */ )` parenthesis in an `@supports` prelude.
///
/// The reading fails at once where the next token is no identifier, and
/// after the name where no `:` follows. Otherwise the value parser is
/// handed the name and the parser itself, after the `:`, and the
/// declaration is what it returns, unless it leaves anything but
/// whitespace and comments behind. An error ranges from where the reading
/// started to where it ended.
pub fn parse_one_declaration<P>(input: &mut Parser, parser: &mut P) -> (r: Result<
    <P as DeclarationParser>::Declaration,
    Range<SourcePosition>,
>) where P: DeclarationParser
    ensures
        *final(parser) == *old(parser),
        ({
            let before = *old(input);
            let after = *final(input);
            let failed = Err::<<P as DeclarationParser>::Declaration, _>(
                SourcePosition(before.index() as usize)..SourcePosition(after.index() as usize),
            );
            let after_name = before.moved_to(before.after_upcoming(), None);
            if !(before.upcoming() is Some && before.upcoming()->0 is Ident) {
                after == before && r == failed
            } else if after_name.upcoming() != Some(Token::Colon) {
                after == after_name && r == failed
            } else {
                exists|n: &str, value_input: &mut Parser, out: Result<<P as DeclarationParser>::Declaration, ()>|
                    n@ == before.upcoming()->0->Ident_0@ && *value_input == after_name.moved_to(
                        after_name.after_upcoming(),
                        None,
                    ) && *final(value_input) == after && #[trigger] call_ensures(
                        <P as DeclarationParser>::parse_value,
                        (&*old(parser), n, value_input),
                        out,
                    ) && r == if out is Ok && after.upcoming() is None {
                        Ok(out->Ok_0)
                    } else {
                        failed
                    }
            }
        }),
{
    let start_position = input.position();
    let result = match input.expect_ident() {
        Ok(name) => {
            proof {
                input.lemma_parts();
            }
            match input.expect_colon() {
                Ok(()) => {
                    proof {
                        input.lemma_parts();
                    }
                    let n = name.as_str();
                    match parser.parse_value(n, input) {
                        Ok(declaration) => {
                            if input.is_exhausted() {
                                Ok(declaration)
                            } else {
                                Err(())
                            }
                        },
                        Err(()) => Err(()),
                    }
                },
                Err(()) => Err(()),
            }
        },
        Err(()) => Err(()),
    };
    match result {
        Ok(declaration) => Ok(declaration),
        Err(()) => Err(start_position..input.position()),
    }
}

/// Parse a single rule, such as for CSSOM’s `CSSStyleSheet.insertRule`.
///
/// Fails where only whitespace and comments are there, where the rule is
/// invalid, and where anything but whitespace and comments follows it.
pub fn parse_one_rule<R, P>(input: &mut Parser, parser: &mut P) -> (r: Result<R, ()>) where
    P: QualifiedRuleParser<QualifiedRule = R> + AtRuleParser<AtRule = R>,

    ensures
        *final(parser) == *old(parser),
        final(input).same_scope(old(input)),
        ({
            let t = old(input).tokens();
            let limit = old(input).limit();
            let stops = old(input).stops();
            let j = rule_start(t, old(input).index(), limit, stops, false);
            if at_stop(t, j, limit, stops) {
                &&& r is Err
                &&& final(input).index() == j
            } else {
                &&& final(input).index() == rule_item_end(t, j, limit, stops)
                &&& exists|item: Result<R, Range<SourcePosition>>| #[trigger]
                    rule_item(old(input).moved_to(j, None), &*old(parser), item) && r == if item
                        is Ok && final(input).upcoming() is None {
                        Ok::<R, ()>(item->Ok_0)
                    } else {
                        Err(())
                    }
            }
        }),
{
    match next_rule(input, &*parser, false) {
        Some(Ok(rule)) => {
            if input.is_exhausted() {
                Ok(rule)
            } else {
                Err(())
            }
        },
        Some(Err(_)) => Err(()),
        None => Err(()),
    }
}

} // verus!
