//! Qualified rules as they stand: what [`RuleTreeParser`] makes of the
//! prelude and of the block of a qualified rule.

use vstd::prelude::*;
use crate::ast::{ComponentValue, QualifiedRule, Rule, SourceLocation};
use crate::parser::{stop_index, Parser};
use crate::rules_and_declarations::QualifiedRuleParser;
use crate::syntax::RuleTreeParser;
use crate::tree::{nodes_represent, values_represent};

verus! {

/// Whether `prelude` is the prelude of the qualified rule that a parser
/// `before` stands at: the place of the next token, and everything up to
/// the end of the scope.
pub open spec fn qualified_rule_prelude_read(
    prelude: (SourceLocation, Vec<ComponentValue>),
    before: Parser,
) -> bool {
    &&& prelude.0 == if before.index() < before.tokens().len() {
        before.list().locations()[before.index()]
    } else {
        before.list().end_location()
    }
    &&& values_represent(
        prelude.1@,
        before.tokens(),
        before.list().locations(),
        before.index(),
        stop_index(before.tokens(), before.index(), before.limit(), before.stops()),
    )
}

/// Whether `rule` is `prelude` with the block that a parser `before`
/// reads to the end of its scope.
pub open spec fn qualified_rule_block_read(
    rule: QualifiedRule,
    prelude: (SourceLocation, Vec<ComponentValue>),
    before: Parser,
) -> bool {
    &&& rule.location == prelude.0
    &&& rule.prelude == prelude.1
    &&& nodes_represent(
        rule.block@,
        before.tokens(),
        before.list().locations(),
        before.index(),
        stop_index(before.tokens(), before.index(), before.limit(), before.stops()),
    )
}

/// The prelude of a qualified rule: where it starts, and everything up to
/// the end of the scope. The parser is then at the end of the scope.
pub fn read_qualified_rule_prelude(input: &mut Parser) -> (r: (SourceLocation, Vec<ComponentValue>))
    ensures
        final(input).same_scope(old(input)),
        final(input).index() == stop_index(
            old(input).tokens(),
            old(input).index(),
            old(input).limit(),
            old(input).stops(),
        ),
        qualified_rule_prelude_read(r, *old(input)),
{
    let location = input.source_location();
    let prelude = input.values_to_end();
    (location, prelude)
}

/// The qualified rule made of a prelude and of everything that a parser
/// reads to the end of its scope. The parser is then at the end of the
/// scope.
pub fn read_qualified_rule_block(
    prelude: (SourceLocation, Vec<ComponentValue>),
    input: &mut Parser,
) -> (r: QualifiedRule)
    ensures
        final(input).same_scope(old(input)),
        final(input).index() == stop_index(
            old(input).tokens(),
            old(input).index(),
            old(input).limit(),
            old(input).stops(),
        ),
        qualified_rule_block_read(r, prelude, *old(input)),
{
    let block = input.nodes_to_end();
    QualifiedRule { location: prelude.0, prelude: prelude.1, block }
}

impl QualifiedRuleParser for RuleTreeParser {
    type Prelude = (SourceLocation, Vec<ComponentValue>);

    type QualifiedRule = Rule;

    /// The prelude is everything up to the end of the scope, with the place
    /// where it starts, and the parser is then at the end of the scope.
    fn parse_prelude(&self, input: &mut Parser) -> (r: Result<Self::Prelude, ()>)
        ensures
            r is Ok,
            qualified_rule_prelude_read(r->Ok_0, *old(input)),
            final(input).same_scope(old(input)),
            final(input).index() == stop_index(
                old(input).tokens(),
                old(input).index(),
                old(input).limit(),
                old(input).stops(),
            ),
    {
        Ok(read_qualified_rule_prelude(input))
    }

    /// The rule is the prelude with everything inside the block, and the
    /// parser is then at the end of the block.
    fn parse_block(&self, prelude: Self::Prelude, input: &mut Parser) -> (r: Result<
        Self::QualifiedRule,
        (),
    >)
        ensures
            r is Ok,
            r->Ok_0 is QualifiedRule,
            qualified_rule_block_read(r->Ok_0->QualifiedRule_0, prelude, *old(input)),
            final(input).same_scope(old(input)),
            final(input).index() == stop_index(
                old(input).tokens(),
                old(input).index(),
                old(input).limit(),
                old(input).stops(),
            ),
    {
        Ok(Rule::QualifiedRule(read_qualified_rule_block(prelude, input)))
    }
}

} // verus!
