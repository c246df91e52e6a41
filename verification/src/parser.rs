//! The delimited parser: a cursor over the tokens that stops before the
//! delimiters of its scope and passes over nested blocks whole.

use vstd::prelude::*;
use crate::ast::{ComponentValue, Node, SourceLocation};
use crate::chars::{lower_chars_of, lowercase, same_chars};
use crate::tree::{nodes_in, nodes_represent, values_in, values_represent};
use crate::token::Token;
use crate::token_list::{close_of, left_open, lemma_value_end, open_in, value_end, TokenList};

verus! {

/// A place in the input of a parser: the number of tokens before it.
#[derive(Clone, Copy, Debug, PartialEq, Eq, PartialOrd, Ord, Hash, Structural)]
pub struct SourcePosition(pub usize);

/// A token at which a scope may end.
#[derive(Clone, Copy, Debug, PartialEq, Eq, Structural)]
pub enum Delimiter {
    /// `;`
    Semicolon,
    /// `!`
    Bang,
    /// `,`
    Comma,
    /// `{`, with the block it opens
    CurlyBracketBlock,
}

impl Delimiter {
    /// The bit that stands for the delimiter in a set.
    pub open spec fn spec_bit(self) -> u8 {
        match self {
            Delimiter::Semicolon => 1,
            Delimiter::Bang => 2,
            Delimiter::Comma => 4,
            Delimiter::CurlyBracketBlock => 8,
        }
    }

    #[verifier::when_used_as_spec(spec_bit)]
    pub fn bit(self) -> (r: u8)
        ensures
            r == self.spec_bit(),
    {
        match self {
            Delimiter::Semicolon => 1,
            Delimiter::Bang => 2,
            Delimiter::Comma => 4,
            Delimiter::CurlyBracketBlock => 8,
        }
    }
}

/// A set of delimiters, one bit for each.
#[derive(Clone, Copy, Debug, PartialEq, Eq, Structural)]
pub struct Delimiters {
    bits: u8,
}

impl Delimiters {
    /// Whether the set holds `d`.
    pub closed spec fn contains(self, d: Delimiter) -> bool {
        self.bits & d.spec_bit() != 0
    }

    /// The set of what is in `self` or in `other`.
    pub closed spec fn spec_union(self, other: Delimiters) -> Delimiters {
        Delimiters { bits: self.bits | other.bits }
    }

    /// A union holds what either of the sets holds.
    pub broadcast proof fn lemma_union(self, other: Delimiters, d: Delimiter)
        ensures
            #[trigger] self.spec_union(other).contains(d) == (self.contains(d) || other.contains(
                d,
            )),
    {
        let a = self.bits;
        let b = other.bits;
        let m = d.spec_bit();
        assert(((a | b) & m != 0) == ((a & m != 0) || (b & m != 0))) by (bit_vector);
    }

    /// The empty set adds nothing.
    pub proof fn lemma_union_none(stops: Delimiters)
        ensures
            stops.spec_union(Delimiters::spec_none()) == stops,
    {
        let a = stops.bits;
        assert(a | 0u8 == a) by (bit_vector);
    }

    /// The empty set.
    pub closed spec fn spec_none() -> Delimiters {
        Delimiters { bits: 0 }
    }

    /// The empty set.
    #[verifier::when_used_as_spec(spec_none)]
    pub fn none() -> (r: Delimiters)
        ensures
            r == Delimiters::spec_none(),
            forall|d: Delimiter| !r.contains(d),
    {
        assert(forall|m: u8| 0u8 & m == 0) by (bit_vector);
        Delimiters { bits: 0 }
    }

    /// The set that holds `d` alone.
    pub closed spec fn spec_of(d: Delimiter) -> Delimiters {
        Delimiters { bits: d.spec_bit() }
    }

    /// The set that holds `d` alone.
    #[verifier::when_used_as_spec(spec_of)]
    pub fn of(d: Delimiter) -> (r: Delimiters)
        ensures
            r == Delimiters::spec_of(d),
            forall|e: Delimiter| r.contains(e) == (e == d),
    {
        assert(1u8 & 1u8 != 0 && 1u8 & 2u8 == 0 && 1u8 & 4u8 == 0 && 1u8 & 8u8 == 0)
            by (bit_vector);
        assert(2u8 & 1u8 == 0 && 2u8 & 2u8 != 0 && 2u8 & 4u8 == 0 && 2u8 & 8u8 == 0)
            by (bit_vector);
        assert(4u8 & 1u8 == 0 && 4u8 & 2u8 == 0 && 4u8 & 4u8 != 0 && 4u8 & 8u8 == 0)
            by (bit_vector);
        assert(8u8 & 1u8 == 0 && 8u8 & 2u8 == 0 && 8u8 & 4u8 == 0 && 8u8 & 8u8 != 0)
            by (bit_vector);
        Delimiters { bits: d.bit() }
    }

    /// The set of what is in `self` or in `other`.
    #[verifier::when_used_as_spec(spec_union)]
    pub fn union(self, other: Delimiters) -> (r: Delimiters)
        ensures
            r == self.spec_union(other),
            forall|d: Delimiter| r.contains(d) == (self.contains(d) || other.contains(d)),
    {
        proof {
            assert forall|d: Delimiter|
                self.spec_union(other).contains(d) == (self.contains(d) || other.contains(
                    d,
                )) by {
                self.lemma_union(other, d);
            }
        }
        Delimiters { bits: self.bits | other.bits }
    }

    /// Whether the set holds `d`.
    pub fn has(self, d: Delimiter) -> (r: bool)
        ensures
            r == self.contains(d),
    {
        self.bits & d.bit() != 0
    }
}

/// The delimiter that a token is, if it is one.
pub open spec fn spec_delimiter_of(token: Token) -> Option<Delimiter> {
    match token {
        Token::Semicolon => Some(Delimiter::Semicolon),
        Token::Delim(c) => if c == '!' {
            Some(Delimiter::Bang)
        } else {
            None
        },
        Token::Comma => Some(Delimiter::Comma),
        Token::CurlyBracketBlock => Some(Delimiter::CurlyBracketBlock),
        _ => None,
    }
}

/// The delimiter that a token is, if it is one.
pub fn delimiter_of(token: &Token) -> (r: Option<Delimiter>)
    ensures
        r == spec_delimiter_of(*token),
{
    match token {
        Token::Semicolon => Some(Delimiter::Semicolon),
        Token::Delim(c) => if *c == '!' {
            Some(Delimiter::Bang)
        } else {
            None
        },
        Token::Comma => Some(Delimiter::Comma),
        Token::CurlyBracketBlock => Some(Delimiter::CurlyBracketBlock),
        _ => None,
    }
}

/// Whether a token is one of the delimiters in `stops`.
pub open spec fn stops_at(token: Token, stops: Delimiters) -> bool {
    spec_delimiter_of(token) is Some && stops.contains(spec_delimiter_of(token)->0)
}

/// Whether a scope that reaches to `limit` and stops before `stops` ends at
/// index `i`.
pub open spec fn at_stop(t: Seq<Token>, i: int, limit: int, stops: Delimiters) -> bool {
    i >= limit || i >= t.len() || i < 0 || stops_at(t[i], stops)
}

/// The smaller of two numbers.
pub open spec fn min(a: int, b: int) -> int {
    if a <= b {
        a
    } else {
        b
    }
}

/// The index after the component value at `i`, within `limit`.
pub open spec fn step(t: Seq<Token>, i: int, limit: int) -> int {
    min(value_end(t, i), limit)
}

/// The first index from `i` on that holds neither a comment nor, where
/// `whitespace_too` is set, whitespace; `limit` where there is none below
/// it.
pub open spec fn significant_from(t: Seq<Token>, i: int, limit: int, whitespace_too: bool) -> int
    decreases limit - i,
{
    if 0 <= i < limit && i < t.len() && (t[i] is Comment || (whitespace_too && t[i]
        is WhiteSpace)) {
        significant_from(t, i + 1, limit, whitespace_too)
    } else {
        i
    }
}

/// The index at which a scope that starts at `i` ends: the first component
/// value from `i` on that is a delimiter in `stops`, or `limit`. What is
/// inside a block does not count.
pub open spec fn stop_index(t: Seq<Token>, i: int, limit: int, stops: Delimiters) -> int
    decreases limit - i,
{
    if at_stop(t, i, limit, stops) {
        i
    } else {
        let next = step(t, i, limit);
        if i < next {
            stop_index(t, next, limit, stops)
        } else {
            limit
        }
    }
}

/// The index after the delimiter at `i` and the block it opens, unless the
/// scope ends at `i` for the parser itself.
pub open spec fn after_stop(t: Seq<Token>, i: int, limit: int, stops: Delimiters) -> int {
    if at_stop(t, i, limit, stops) {
        i
    } else {
        step(t, i, limit)
    }
}

/// Only whitespace and comments are passed over, and no further than the
/// limit.
pub proof fn lemma_significant_from(t: Seq<Token>, i: int, limit: int, whitespace_too: bool)
    requires
        0 <= i <= limit <= t.len(),
    ensures
        i <= significant_from(t, i, limit, whitespace_too) <= limit,
        forall|j: int|
            i <= j < significant_from(t, i, limit, whitespace_too) ==> (#[trigger] t[j]).spec_is_trivia(),
    decreases limit - i,
{
    if i < limit && (t[i] is Comment || (whitespace_too && t[i] is WhiteSpace)) {
        lemma_significant_from(t, i + 1, limit, whitespace_too);
    }
}

/// A scope ends at a delimiter of its set or at its limit, wherever it
/// starts.
pub proof fn lemma_stop_index(t: Seq<Token>, i: int, limit: int, stops: Delimiters)
    requires
        0 <= i <= limit <= t.len(),
    ensures
        i <= stop_index(t, i, limit, stops) <= limit,
        at_stop(t, stop_index(t, i, limit, stops), limit, stops),
    decreases limit - i,
{
    if !at_stop(t, i, limit, stops) {
        lemma_value_end(t, i);
        lemma_stop_index(t, step(t, i, limit), limit, stops);
    }
}

/// A cursor over the tokens of one scope.
///
/// The scope reaches from where the parser was made to its limit, the end
/// of the block it is in, and ends earlier at the first delimiter of its
/// set that stands outside any nested block.
pub struct Parser<'a> {
    input: &'a TokenList,
    position: usize,
    limit: usize,
    stop_before: Delimiters,
    block: Option<usize>,
}

impl<'a> Parser<'a> {
    #[verifier::type_invariant]
    spec fn inv(self) -> bool {
        &&& self.position <= self.limit <= self.input.tokens().len()
        &&& match self.block {
            Some(k) => k < self.position && self.input.tokens()[k as int].spec_opening() is Some,
            None => true,
        }
    }

    /// The token list that the parser reads.
    pub closed spec fn list(&self) -> &'a TokenList {
        self.input
    }

    /// All the tokens of the text.
    pub open spec fn tokens(&self) -> Seq<Token> {
        self.list().tokens()
    }

    /// The index of the next token.
    pub closed spec fn index(&self) -> int {
        self.position as int
    }

    /// The index at which the block that the parser is in ends.
    pub closed spec fn limit(&self) -> int {
        self.limit as int
    }

    /// The delimiters before which the parser stops.
    pub closed spec fn stops(&self) -> Delimiters {
        self.stop_before
    }

    /// The index of the token that opens a block, where that token is the
    /// one handed out last and the block can still be entered.
    pub closed spec fn block(&self) -> Option<int> {
        match self.block {
            Some(k) => Some(k as int),
            None => None,
        }
    }

    /// Whether `other` reads the same scope: the same tokens up to the same
    /// limit, with the same delimiters.
    pub open spec fn same_scope(&self, other: &Parser<'a>) -> bool {
        &&& self.list() == other.list()
        &&& self.limit() == other.limit()
        &&& self.stops() == other.stops()
    }

    /// Whether the scope ends at the next token.
    pub open spec fn at_end(&self) -> bool {
        at_stop(self.tokens(), self.index(), self.limit(), self.stops())
    }

    /// The parser that reads `list` from `index` up to `limit`, stops
    /// before `stops` and can enter the block opened at `block`.
    pub closed spec fn of(
        list: &'a TokenList,
        index: int,
        limit: int,
        stops: Delimiters,
        block: Option<int>,
    ) -> Parser<'a> {
        Parser {
            input: list,
            position: index as usize,
            limit: limit as usize,
            stop_before: stops,
            block: match block {
                Some(k) => Some(k as usize),
                None => None,
            },
        }
    }

    /// What `of` gives, field by field.
    pub broadcast proof fn lemma_of(
        list: &'a TokenList,
        index: int,
        limit: int,
        stops: Delimiters,
        block: Option<int>,
    )
        requires
            0 <= index <= usize::MAX,
            0 <= limit <= usize::MAX,
            block is Some ==> 0 <= block->0 <= usize::MAX,
        ensures
            (#[trigger] Parser::of(list, index, limit, stops, block)).list() == list,
            Parser::of(list, index, limit, stops, block).index() == index,
            Parser::of(list, index, limit, stops, block).limit() == limit,
            Parser::of(list, index, limit, stops, block).stops() == stops,
            Parser::of(list, index, limit, stops, block).block() == block,
    {
    }

    /// A parser is what `of` makes of its parts.
    pub proof fn lemma_parts(&self)
        ensures
            *self == Parser::of(
                self.list(),
                self.index(),
                self.limit(),
                self.stops(),
                self.block(),
            ),
    {
    }

    /// The parser that this one becomes when it moves to `index`.
    pub open spec fn moved_to(&self, index: int, block: Option<int>) -> Parser<'a> {
        Parser::of(self.list(), index, self.limit(), self.stops(), block)
    }

    /// The parser of the same place that stops before `extra` as well.
    pub open spec fn spec_delimited(&self, extra: Delimiters) -> Parser<'a> {
        Parser::of(
            self.list(),
            self.index(),
            self.limit(),
            self.stops().spec_union(extra),
            self.block(),
        )
    }

    /// The parser of what is inside the block that the token at `opener`
    /// opens, with no delimiters.
    pub open spec fn spec_block_at(&self, opener: int) -> Parser<'a> {
        Parser::of(
            self.list(),
            opener + 1,
            min(close_of(self.tokens(), opener), self.limit()),
            Delimiters::spec_none(),
            None,
        )
    }

    /// The parser of what is inside the block that was opened last.
    pub open spec fn spec_nested(&self) -> Parser<'a> {
        self.spec_block_at(self.block()->0)
    }

    /// A parser over all the tokens of `input`.
    pub fn new(input: &'a TokenList) -> (r: Parser<'a>)
        ensures
            r.list() == input,
            r.tokens() == input.tokens(),
            r.index() == 0,
            r.limit() == input.tokens().len(),
            forall|d: Delimiter| !r.stops().contains(d),
            r.block() is None,
    {
        Parser {
            input,
            position: 0,
            limit: input.len(),
            stop_before: Delimiters::none(),
            block: None,
        }
    }

    /// Where the parser stands.
    pub fn position(&self) -> (r: SourcePosition)
        ensures
            r.0 == self.index(),
            0 <= self.index() <= self.limit() <= self.tokens().len() <= usize::MAX,
    {
        proof {
            use_type_invariant(self);
        }
        let len: usize = self.input.len();
        SourcePosition(self.position)
    }

    /// The last position of the block that the parser is in.
    pub fn end_position(&self) -> (r: SourcePosition)
        ensures
            r.0 == self.limit(),
    {
        SourcePosition(self.limit)
    }

    /// Goes back to a position that `position` gave earlier.
    pub fn reset(&mut self, position: SourcePosition)
        requires
            position.0 <= old(self).limit(),
        ensures
            final(self).same_scope(old(self)),
            final(self).index() == position.0,
            final(self).block() is None,
            *final(self) == old(self).moved_to(position.0 as int, None),
    {
        proof {
            use_type_invariant(&*self);
        }
        self.block = None;
        self.position = position.0;
    }

    /// Line and column of the next token, or of the end of the text.
    pub fn source_location(&self) -> (r: SourceLocation)
        ensures
            r == if self.index() < self.tokens().len() {
                self.list().locations()[self.index()]
            } else {
                self.list().end_location()
            },
    {
        self.input.location(self.position)
    }

    /// Line and column of a position.
    pub fn location_of(&self, position: SourcePosition) -> (r: SourceLocation)
        ensures
            r == if position.0 < self.tokens().len() {
                self.list().locations()[position.0 as int]
            } else {
                self.list().end_location()
            },
    {
        self.input.location(position.0)
    }

    /// The next token, whatever it is, unless the scope ends there. A token
    /// that opens a block takes the parser past the whole block.
    pub fn next_including_whitespace_and_comments(&mut self) -> (r: Option<&'a Token>)
        ensures
            final(self).same_scope(old(self)),
            old(self).at_end() ==> r is None && *final(self) == *old(self),
            !old(self).at_end() ==> {
                &&& r == Some(&old(self).tokens()[old(self).index()])
                &&& final(self).index() == step(
                    old(self).tokens(),
                    old(self).index(),
                    old(self).limit(),
                )
                &&& final(self).index() > old(self).index()
                &&& final(self).block() == if r->0.spec_opening() is Some {
                    Some(old(self).index())
                } else {
                    None
                }
            },
    {
        proof {
            use_type_invariant(&*self);
        }
        if self.position >= self.limit {
            return None;
        }
        let token = self.input.get(self.position);
        match delimiter_of(token) {
            Some(d) => {
                if self.stop_before.has(d) {
                    return None;
                }
            },
            None => {},
        }
        let end = self.input.value_end(self.position);
        let here: usize = self.position;
        self.block = None;
        self.position = if end <= self.limit {
            end
        } else {
            self.limit
        };
        if token.opening().is_some() {
            self.block = Some(here);
        }
        Some(token)
    }

    /// The next token that is not a comment, unless the scope ends before
    /// it. Comments before it are passed over either way.
    pub fn next_including_whitespace(&mut self) -> (r: Option<&'a Token>)
        ensures
            final(self).same_scope(old(self)),
            ({
                let t = old(self).tokens();
                let j = significant_from(t, old(self).index(), old(self).limit(), false);
                if at_stop(t, j, old(self).limit(), old(self).stops()) {
                    &&& r is None
                    &&& final(self).index() == j
                    &&& final(self).block() == if j == old(self).index() {
                        old(self).block()
                    } else {
                        None
                    }
                } else {
                    &&& r == Some(&t[j])
                    &&& final(self).index() == step(t, j, old(self).limit())
                    &&& final(self).index() > j
                    &&& final(self).block() == if t[j].spec_opening() is Some {
                        Some(j)
                    } else {
                        None
                    }
                }
            }),
            final(self).index() >= old(self).index(),
            r is Some ==> final(self).index() > old(self).index(),
    {
        self.next_significant(false)
    }

    /// The next token that is neither whitespace nor a comment, unless the
    /// scope ends before it. Whitespace and comments before it are passed
    /// over either way.
    pub fn next(&mut self) -> (r: Option<&'a Token>)
        ensures
            final(self).same_scope(old(self)),
            ({
                let t = old(self).tokens();
                let j = significant_from(t, old(self).index(), old(self).limit(), true);
                if at_stop(t, j, old(self).limit(), old(self).stops()) {
                    &&& r is None
                    &&& final(self).index() == j
                    &&& final(self).block() == if j == old(self).index() {
                        old(self).block()
                    } else {
                        None
                    }
                } else {
                    &&& r == Some(&t[j])
                    &&& final(self).index() == step(t, j, old(self).limit())
                    &&& final(self).index() > j
                    &&& final(self).block() == if t[j].spec_opening() is Some {
                        Some(j)
                    } else {
                        None
                    }
                }
            }),
            final(self).index() >= old(self).index(),
            r is Some ==> final(self).index() > old(self).index(),
    {
        self.next_significant(true)
    }

    fn next_significant(&mut self, whitespace_too: bool) -> (r: Option<&'a Token>)
        ensures
            final(self).same_scope(old(self)),
            ({
                let t = old(self).tokens();
                let j = significant_from(
                    t,
                    old(self).index(),
                    old(self).limit(),
                    whitespace_too,
                );
                if at_stop(t, j, old(self).limit(), old(self).stops()) {
                    &&& r is None
                    &&& final(self).index() == j
                    &&& final(self).block() == if j == old(self).index() {
                        old(self).block()
                    } else {
                        None
                    }
                } else {
                    &&& r == Some(&t[j])
                    &&& final(self).index() == step(t, j, old(self).limit())
                    &&& final(self).index() > j
                    &&& final(self).block() == if t[j].spec_opening() is Some {
                        Some(j)
                    } else {
                        None
                    }
                }
            }),
            final(self).index() >= old(self).index(),
            r is Some ==> final(self).index() > old(self).index(),
    {
        proof {
            use_type_invariant(&*self);
            lemma_significant_from(
                self.tokens(),
                self.index(),
                self.limit(),
                whitespace_too,
            );
        }
        loop
            invariant
                self.same_scope(old(self)),
                old(self).index() <= self.index() <= self.limit(),
                significant_from(
                    old(self).tokens(),
                    old(self).index(),
                    old(self).limit(),
                    whitespace_too,
                ) == significant_from(
                    old(self).tokens(),
                    self.index(),
                    old(self).limit(),
                    whitespace_too,
                ),
                self.index() == old(self).index() ==> *self == *old(self),
                self.index() > old(self).index() ==> self.block() is None,
            decreases self.limit() - self.index(),
        {
            let ghost here = self.index();
            match self.next_including_whitespace_and_comments() {
                Some(token) => {
                    let skipped = match token {
                        Token::Comment(_) => true,
                        Token::WhiteSpace => whitespace_too,
                        _ => false,
                    };
                    if !skipped {
                        return Some(token);
                    }
                    proof {
                        lemma_value_end(self.tokens(), here);
                    }
                },
                None => {
                    return None;
                },
            }
        }
    }
}

impl<'a> Parser<'a> {
    fn snapshot(&self) -> (r: Parser<'a>)
        ensures
            r == *self,
    {
        proof {
            use_type_invariant(self);
        }
        Parser {
            input: self.input,
            position: self.position,
            limit: self.limit,
            stop_before: self.stop_before,
            block: self.block,
        }
    }

    /// The token that `next` would hand out: the first that is neither
    /// whitespace nor a comment, unless the scope ends before it.
    pub open spec fn upcoming(&self) -> Option<Token> {
        let j = significant_from(self.tokens(), self.index(), self.limit(), true);
        if at_stop(self.tokens(), j, self.limit(), self.stops()) {
            None
        } else {
            Some(self.tokens()[j])
        }
    }

    /// The index after the token that `next` would hand out.
    pub open spec fn after_upcoming(&self) -> int {
        step(
            self.tokens(),
            significant_from(self.tokens(), self.index(), self.limit(), true),
            self.limit(),
        )
    }

    /// The index at which `next` leaves the parser.
    pub open spec fn index_after_next(&self) -> int {
        let j = significant_from(self.tokens(), self.index(), self.limit(), true);
        if at_stop(self.tokens(), j, self.limit(), self.stops()) {
            j
        } else {
            step(self.tokens(), j, self.limit())
        }
    }

    /// Gives up the block that was opened last: it can no longer be
    /// entered.
    pub fn leave_block(&mut self)
        ensures
            final(self).same_scope(old(self)),
            final(self).index() == old(self).index(),
            final(self).block() is None,
    {
        proof {
            use_type_invariant(&*self);
        }
        self.block = None;
    }

    /// Whether nothing but whitespace and comments is left in the scope.
    pub fn is_exhausted(&self) -> (r: bool)
        ensures
            r == (self.upcoming() is None),
    {
        let mut probe = self.snapshot();
        probe.next().is_none()
    }

    /// Succeeds where nothing but whitespace and comments is left in the
    /// scope. The parser stays where it is.
    pub fn expect_exhausted(&self) -> (r: Result<(), ()>)
        ensures
            r is Ok <==> self.upcoming() is None,
    {
        if self.is_exhausted() {
            Ok(())
        } else {
            Err(())
        }
    }

    /// Takes the next token if it is an identifier, and gives its name.
    pub fn expect_ident(&mut self) -> (r: Result<&'a String, ()>)
        ensures
            final(self).same_scope(old(self)),
            match r {
                Ok(name) => {
                    &&& old(self).upcoming() == Some(Token::Ident(*name))
                    &&& final(self).index() == old(self).after_upcoming()
                    &&& final(self).index() > old(self).index()
                    &&& final(self).block() is None
                },
                Err(_) => {
                    &&& !(old(self).upcoming() is Some && old(self).upcoming()->0 is Ident)
                    &&& *final(self) == *old(self)
                },
            },
    {
        let saved = self.snapshot();
        match self.next() {
            Some(Token::Ident(name)) => Ok(name),
            _ => {
                *self = saved;
                Err(())
            },
        }
    }

    /// Takes the next token if it is an identifier that reads `expected`
    /// when ASCII case is left aside.
    pub fn expect_ident_matching(&mut self, expected: &str) -> (r: Result<(), ()>)
        ensures
            final(self).same_scope(old(self)),
            r is Ok <==> old(self).upcoming() is Some && old(self).upcoming()->0 is Ident
                && lowercase(old(self).upcoming()->0->Ident_0@) == lowercase(expected@),
            r is Ok ==> {
                &&& final(self).index() == old(self).after_upcoming()
                &&& final(self).index() > old(self).index()
                &&& final(self).block() is None
            },
            r is Err ==> *final(self) == *old(self),
    {
        let saved = self.snapshot();
        match self.next() {
            Some(Token::Ident(name)) => {
                let found = lower_chars_of(name.as_str());
                let wanted = lower_chars_of(expected);
                if same_chars(found.as_slice(), wanted.as_slice()) {
                    Ok(())
                } else {
                    *self = saved;
                    Err(())
                }
            },
            _ => {
                *self = saved;
                Err(())
            },
        }
    }

    /// Takes the next token if it is `:`.
    pub fn expect_colon(&mut self) -> (r: Result<(), ()>)
        ensures
            final(self).same_scope(old(self)),
            r is Ok <==> old(self).upcoming() == Some(Token::Colon),
            r is Ok ==> {
                &&& final(self).index() == old(self).after_upcoming()
                &&& final(self).index() > old(self).index()
                &&& final(self).block() is None
            },
            r is Err ==> *final(self) == *old(self),
    {
        let saved = self.snapshot();
        match self.next() {
            Some(Token::Colon) => Ok(()),
            _ => {
                *self = saved;
                Err(())
            },
        }
    }

    /// Takes the next token if it is `;`.
    pub fn expect_semicolon(&mut self) -> (r: Result<(), ()>)
        ensures
            final(self).same_scope(old(self)),
            r is Ok <==> old(self).upcoming() == Some(Token::Semicolon),
            r is Ok ==> {
                &&& final(self).index() == old(self).after_upcoming()
                &&& final(self).index() > old(self).index()
                &&& final(self).block() is None
            },
            r is Err ==> *final(self) == *old(self),
    {
        let saved = self.snapshot();
        match self.next() {
            Some(Token::Semicolon) => Ok(()),
            _ => {
                *self = saved;
                Err(())
            },
        }
    }

    /// Takes the next token if it is `,`.
    pub fn expect_comma(&mut self) -> (r: Result<(), ()>)
        ensures
            final(self).same_scope(old(self)),
            r is Ok <==> old(self).upcoming() == Some(Token::Comma),
            r is Ok ==> {
                &&& final(self).index() == old(self).after_upcoming()
                &&& final(self).index() > old(self).index()
                &&& final(self).block() is None
            },
            r is Err ==> *final(self) == *old(self),
    {
        let saved = self.snapshot();
        match self.next() {
            Some(Token::Comma) => Ok(()),
            _ => {
                *self = saved;
                Err(())
            },
        }
    }

    /// Takes the next token if it is the delimiter `expected`.
    pub fn expect_delim(&mut self, expected: char) -> (r: Result<(), ()>)
        ensures
            final(self).same_scope(old(self)),
            r is Ok <==> old(self).upcoming() == Some(Token::Delim(expected)),
            r is Ok ==> {
                &&& final(self).index() == old(self).after_upcoming()
                &&& final(self).index() > old(self).index()
                &&& final(self).block() is None
            },
            r is Err ==> *final(self) == *old(self),
    {
        let saved = self.snapshot();
        match self.next() {
            Some(Token::Delim(c)) => {
                if *c == expected {
                    Ok(())
                } else {
                    *self = saved;
                    Err(())
                }
            },
            _ => {
                *self = saved;
                Err(())
            },
        }
    }

    /// Takes the next token if it is `{`. The parser is then past the
    /// block, which can be entered.
    pub fn expect_curly_bracket_block(&mut self) -> (r: Result<(), ()>)
        ensures
            final(self).same_scope(old(self)),
            r is Ok <==> old(self).upcoming() == Some(Token::CurlyBracketBlock),
            r is Ok ==> {
                &&& final(self).index() == old(self).after_upcoming()
                &&& final(self).index() > old(self).index()
                &&& final(self).block() is Some
            },
            r is Err ==> *final(self) == *old(self),
    {
        let saved = self.snapshot();
        match self.next() {
            Some(Token::CurlyBracketBlock) => Ok(()),
            _ => {
                *self = saved;
                Err(())
            },
        }
    }
}

impl<'a> Parser<'a> {
    /// A parser at the same place that stops before `extra` as well.
    pub fn delimited(&self, extra: Delimiters) -> (r: Parser<'a>)
        ensures
            r == self.spec_delimited(extra),
            r.list() == self.list(),
            r.index() == self.index(),
            r.limit() == self.limit(),
            r.stops() == self.stops().spec_union(extra),
            r.block() == self.block(),
    {
        proof {
            use_type_invariant(self);
        }
        Parser {
            input: self.input,
            position: self.position,
            limit: self.limit,
            stop_before: self.stop_before.union(extra),
            block: self.block,
        }
    }

    /// Whether the token handed out last opened a block that can still be
    /// entered.
    pub fn is_at_block(&self) -> (r: bool)
        ensures
            r == (self.block() is Some),
    {
        self.block.is_some()
    }

    /// Whether the token handed out last opened a block that is left open:
    /// one that no token closes before the input ends.
    pub fn is_block_left_open(&self) -> (r: bool)
        ensures
            r == (self.block() is Some && left_open(self.tokens(), self.block()->0)),
    {
        proof {
            use_type_invariant(self);
        }
        match self.block {
            Some(k) => self.input.close(k) >= self.input.len(),
            None => false,
        }
    }

    /// Whether some token from `start` up to `end`, `end` left out, opens a
    /// block that is left open.
    pub fn has_open_block_between(&self, start: SourcePosition, end: SourcePosition) -> (r: bool)
        ensures
            r == open_in(self.tokens(), start.0 as int, end.0 as int),
    {
        let len: usize = self.input.len();
        let mut k: usize = start.0;
        while k < end.0 && k < len
            invariant
                start.0 <= k,
                len == self.tokens().len(),
                forall|j: int| start.0 <= j < k ==> !#[trigger] left_open(self.tokens(), j),
            decreases len - k,
        {
            if self.input.get(k).opening().is_some() && self.input.close(k) >= len {
                assert(left_open(self.tokens(), k as int));
                return true;
            }
            k = k + 1;
        }
        false
    }

    /// A parser over what is inside the block that was opened last, with no
    /// delimiters.
    pub fn nested(&self) -> (r: Parser<'a>)
        requires
            self.block() is Some,
        ensures
            r == self.spec_nested(),
            r.list() == self.list(),
            r.index() == self.block()->0 + 1,
            r.limit() == min(close_of(self.tokens(), self.block()->0), self.limit()),
            forall|d: Delimiter| !r.stops().contains(d),
            r.block() is None,
            r.index() <= self.index(),
    {
        proof {
            use_type_invariant(self);
        }
        let opener: usize = match self.block {
            Some(k) => k,
            None => 0,
        };
        let close = self.input.close(opener);
        proof {
            lemma_value_end(self.input.tokens(), opener as int);
        }
        let limit: usize = if close <= self.limit {
            close
        } else {
            self.limit
        };
        Parser {
            input: self.input,
            position: opener + 1,
            limit,
            stop_before: Delimiters::none(),
            block: None,
        }
    }

    /// Goes on to the end of the scope that `extra` narrows: up to the
    /// first delimiter of the parser or of `extra`, or the limit.
    pub fn skip_until_before(&mut self, extra: Delimiters)
        ensures
            final(self).same_scope(old(self)),
            final(self).index() == stop_index(
                old(self).tokens(),
                old(self).index(),
                old(self).limit(),
                old(self).stops().spec_union(extra),
            ),
            at_stop(
                old(self).tokens(),
                final(self).index(),
                old(self).limit(),
                old(self).stops().spec_union(extra),
            ),
            old(self).index() <= final(self).index() <= old(self).limit(),
            final(self).block() is None,
    {
        proof {
            use_type_invariant(&*self);
            lemma_stop_index(
                self.tokens(),
                self.index(),
                self.limit(),
                self.stops().spec_union(extra),
            );
        }
        let stops = self.stop_before.union(extra);
        self.block = None;
        while self.position < self.limit
            invariant
                self.same_scope(old(self)),
                stops == old(self).stops().spec_union(extra),
                self.block() is None,
                old(self).index() <= self.index() <= self.limit() <= self.tokens().len(),
                stop_index(old(self).tokens(), old(self).index(), old(self).limit(), stops)
                    == stop_index(old(self).tokens(), self.index(), old(self).limit(), stops),
            decreases self.limit() - self.index(),
        {
            let token = self.input.get(self.position);
            match delimiter_of(token) {
                Some(d) => {
                    if stops.has(d) {
                        return ;
                    }
                },
                None => {},
            }
            let end = self.input.value_end(self.position);
            self.position = if end <= self.limit {
                end
            } else {
                self.limit
            };
        }
    }

    /// Goes on to the end of the scope that `extra` narrows, and past the
    /// delimiter found there with the block it opens, unless the parser's
    /// own scope ends there.
    pub fn skip_until_after(&mut self, extra: Delimiters)
        ensures
            final(self).same_scope(old(self)),
            final(self).index() == after_stop(
                old(self).tokens(),
                stop_index(
                    old(self).tokens(),
                    old(self).index(),
                    old(self).limit(),
                    old(self).stops().spec_union(extra),
                ),
                old(self).limit(),
                old(self).stops(),
            ),
            old(self).index() <= final(self).index() <= old(self).limit(),
            final(self).block() is None,
    {
        self.skip_until_before(extra);
        proof {
            use_type_invariant(&*self);
        }
        let _ = self.next_including_whitespace_and_comments();
        self.block = None;
    }

    /// Runs `f`, and goes back to where the parser stood if `f` fails.
    ///
    /// The result is what `f` returns when it is run on the parser. After
    /// a failure the parser is as it was. After a success it is as `f`
    /// left it, so it is further on whenever `f` never leaves a parser
    /// behind the place where it found it.
    pub fn try_parse<T, F: FnOnce(&mut Parser<'a>) -> Result<T, ()>>(&mut self, f: F) -> (r: Result<
        T,
        (),
    >)
        requires
            forall|p: &mut Parser<'a>| *p == *old(self) ==> call_requires(f, (p,)),
        ensures
            exists|p: &mut Parser<'a>|
                *p == *old(self) && #[trigger] call_ensures(f, (p,), r) && *final(self) == if r
                    is Ok {
                    *final(p)
                } else {
                    *old(self)
                },
            r is Err ==> *final(self) == *old(self),
            (forall|q: &mut Parser<'a>, out: Result<T, ()>| #[trigger]
                call_ensures(f, (q,), out) && out is Ok ==> final(q).index() >= q.index())
                ==> final(self).index() >= old(self).index(),
    {
        let saved = self.snapshot();
        let r = f(self);
        if r.is_err() {
            *self = saved;
        }
        r
    }

    /// Runs `f`, and fails if `f` fails or leaves anything but whitespace
    /// and comments in the scope.
    pub fn parse_entirely<T, F: FnOnce(&mut Parser<'a>) -> Result<T, ()>>(
        &mut self,
        f: F,
    ) -> (r: Result<T, ()>)
        requires
            forall|p: &mut Parser<'a>| *p == *old(self) ==> call_requires(f, (p,)),
        ensures
            r is Ok ==> final(self).upcoming() is None,
            exists|p: &mut Parser<'a>, out: Result<T, ()>|
                *p == *old(self) && *final(p) == *final(self) && #[trigger] call_ensures(
                    f,
                    (p,),
                    out,
                ) && r == if final(self).upcoming() is None {
                    out
                } else {
                    Err(())
                },
    {
        let out = f(self);
        match out {
            Ok(value) => {
                if self.is_exhausted() {
                    Ok(value)
                } else {
                    Err(())
                }
            },
            Err(e) => Err(e),
        }
    }

    /// Runs `f` on a parser at the same place that stops before `extra` as
    /// well, then goes on to the end of that scope, whatever `f` did and
    /// returned: the next token is then a delimiter of the parser or of
    /// `extra`, unless the limit is reached.
    pub fn parse_until_before<T, F: FnOnce(&mut Parser<'a>) -> Result<T, ()>>(
        &mut self,
        extra: Delimiters,
        f: F,
    ) -> (r: Result<T, ()>)
        requires
            forall|p: &mut Parser<'a>|
                *p == old(self).spec_delimited(extra) ==> call_requires(f, (p,)),
        ensures
            final(self).same_scope(old(self)),
            final(self).index() == stop_index(
                old(self).tokens(),
                old(self).index(),
                old(self).limit(),
                old(self).stops().spec_union(extra),
            ),
            at_stop(
                old(self).tokens(),
                final(self).index(),
                old(self).limit(),
                old(self).stops().spec_union(extra),
            ),
            old(self).index() <= final(self).index() <= old(self).limit(),
            final(self).block() is None,
            exists|p: &mut Parser<'a>|
                *p == old(self).spec_delimited(extra) && #[trigger] call_ensures(f, (p,), r),
    {
        let mut inner = self.delimited(extra);
        let r = f(&mut inner);
        self.skip_until_before(extra);
        r
    }

    /// As `parse_until_before`, and then past the delimiter found, with the
    /// block it opens, unless the parser's own scope ends there.
    pub fn parse_until_after<T, F: FnOnce(&mut Parser<'a>) -> Result<T, ()>>(
        &mut self,
        extra: Delimiters,
        f: F,
    ) -> (r: Result<T, ()>)
        requires
            forall|p: &mut Parser<'a>|
                *p == old(self).spec_delimited(extra) ==> call_requires(f, (p,)),
        ensures
            final(self).same_scope(old(self)),
            final(self).index() == after_stop(
                old(self).tokens(),
                stop_index(
                    old(self).tokens(),
                    old(self).index(),
                    old(self).limit(),
                    old(self).stops().spec_union(extra),
                ),
                old(self).limit(),
                old(self).stops(),
            ),
            old(self).index() <= final(self).index() <= old(self).limit(),
            final(self).block() is None,
            exists|p: &mut Parser<'a>|
                *p == old(self).spec_delimited(extra) && #[trigger] call_ensures(f, (p,), r),
    {
        let mut inner = self.delimited(extra);
        let r = f(&mut inner);
        self.skip_until_after(extra);
        r
    }

    /// Runs `f` on what is inside the block that was opened last, with no
    /// delimiters. The parser itself stays after the block, whatever `f`
    /// did and returned.
    pub fn parse_nested_block<T, F: FnOnce(&mut Parser<'a>) -> Result<T, ()>>(
        &mut self,
        f: F,
    ) -> (r: Result<T, ()>)
        requires
            old(self).block() is Some,
            forall|p: &mut Parser<'a>| *p == old(self).spec_nested() ==> call_requires(f, (p,)),
        ensures
            final(self).same_scope(old(self)),
            final(self).index() == old(self).index(),
            final(self).block() is None,
            exists|p: &mut Parser<'a>|
                *p == old(self).spec_nested() && #[trigger] call_ensures(f, (p,), r),
    {
        let mut inner = self.nested();
        let r = f(&mut inner);
        proof {
            use_type_invariant(&*self);
        }
        self.block = None;
        r
    }
}

impl<'a> Parser<'a> {
    /// Passes over whitespace and comments, as far as the scope reaches.
    pub fn skip_whitespace(&mut self)
        ensures
            final(self).same_scope(old(self)),
            final(self).index() == significant_from(
                old(self).tokens(),
                old(self).index(),
                old(self).limit(),
                true,
            ),
            old(self).index() <= final(self).index() <= old(self).limit(),
            final(self).index() > old(self).index() ==> final(self).block() is None,
            final(self).index() == old(self).index() ==> *final(self) == *old(self),
    {
        proof {
            use_type_invariant(&*self);
        }
        while self.position < self.limit && self.input.get(self.position).is_trivia()
            invariant
                self.same_scope(old(self)),
                old(self).index() <= self.index() <= self.limit() <= self.tokens().len(),
                significant_from(
                    old(self).tokens(),
                    old(self).index(),
                    old(self).limit(),
                    true,
                ) == significant_from(
                    old(self).tokens(),
                    self.index(),
                    old(self).limit(),
                    true,
                ),
                self.index() > old(self).index() ==> self.block() is None,
                self.index() == old(self).index() ==> *self == *old(self),
            decreases self.limit() - self.index(),
        {
            self.block = None;
            self.position = self.position + 1;
        }
    }

    /// The token at a position, whether or not the parser has read it, and
    /// nothing past the last token.
    pub fn token_at(&self, position: SourcePosition) -> (r: Option<&'a Token>)
        ensures
            r == if position.0 < self.tokens().len() {
                Some(&self.tokens()[position.0 as int])
            } else {
                None
            },
    {
        if position.0 < self.input.len() {
            Some(self.input.get(position.0))
        } else {
            None
        }
    }

    /// The component values from here to the end of the scope, blocks
    /// folded and comments left out. The parser is then at the end of its
    /// scope.
    pub fn values_to_end(&mut self) -> (r: Vec<ComponentValue>)
        ensures
            final(self).same_scope(old(self)),
            final(self).index() == stop_index(
                old(self).tokens(),
                old(self).index(),
                old(self).limit(),
                old(self).stops(),
            ),
            old(self).index() <= final(self).index() <= old(self).limit(),
            final(self).block() is None,
            values_represent(
                r@,
                old(self).tokens(),
                old(self).list().locations(),
                old(self).index(),
                final(self).index(),
            ),
    {
        let start: usize = self.position;
        self.skip_until_before(Delimiters::none());
        proof {
            use_type_invariant(&*self);
            Delimiters::lemma_union_none(old(self).stops());
        }
        values_in(self.input, start, self.position)
    }

    /// The component values from here to the end of the scope, each with
    /// the line and column where it starts. The parser is then at the end
    /// of its scope.
    pub fn nodes_to_end(&mut self) -> (r: Vec<Node>)
        ensures
            final(self).same_scope(old(self)),
            final(self).index() == stop_index(
                old(self).tokens(),
                old(self).index(),
                old(self).limit(),
                old(self).stops(),
            ),
            old(self).index() <= final(self).index() <= old(self).limit(),
            final(self).block() is None,
            nodes_represent(
                r@,
                old(self).tokens(),
                old(self).list().locations(),
                old(self).index(),
                final(self).index(),
            ),
    {
        let start: usize = self.position;
        self.skip_until_before(Delimiters::none());
        proof {
            use_type_invariant(&*self);
            Delimiters::lemma_union_none(old(self).stops());
        }
        nodes_in(self.input, start, self.position)
    }
}

} // verus!
