//! The tokens that the tokenizer hands out, one for each lexical unit of the
//! source text.

use vstd::prelude::*;
use crate::ast::NumericValue;

verus! {

/// A token. A function or a bracket that opens a block is a token of its
/// own here: what the block holds follows it, up to the closing token.
#[derive(Clone, Debug, PartialEq, Eq)]
pub enum Token {
    Ident(String),
    AtKeyword(String),
    Hash(String),
    /// A hash whose value is a valid identifier.
    IDHash(String),
    String(String),
    URL(String),
    Delim(char),
    Number(NumericValue),
    Percentage(NumericValue),
    Dimension(NumericValue, String),
    /// First and last code point of the range.
    UnicodeRange(u32, u32),
    WhiteSpace,
    /// The text between `/*` and `*/`.
    Comment(String),
    Colon,
    Semicolon,
    Comma,
    /// `~=`
    IncludeMatch,
    /// `|=`
    DashMatch,
    /// `^=`
    PrefixMatch,
    /// `$=`
    SuffixMatch,
    /// `*=`
    SubstringMatch,
    /// `||`
    Column,
    /// `<!--`
    CDO,
    /// `-->`
    CDC,
    /// A name directly followed by `(`.
    Function(String),
    /// `(`
    ParenthesisBlock,
    /// `[`
    SquareBracketBlock,
    /// `{`
    CurlyBracketBlock,
    BadURL,
    BadString,
    /// `)`
    CloseParenthesis,
    /// `]`
    CloseSquareBracket,
    /// `}`
    CloseCurlyBracket,
}

/// What a numeric value holds, as mathematical values.
pub struct NumericView {
    pub representation: Seq<char>,
    pub int_value: Option<i64>,
}

impl View for NumericValue {
    type V = NumericView;

    open spec fn view(&self) -> NumericView {
        NumericView { representation: self.representation@, int_value: self.int_value }
    }
}

/// What a token holds, as mathematical values.
pub enum TokenView {
    Ident(Seq<char>),
    AtKeyword(Seq<char>),
    Hash(Seq<char>),
    IDHash(Seq<char>),
    String(Seq<char>),
    URL(Seq<char>),
    Delim(char),
    Number(NumericView),
    Percentage(NumericView),
    Dimension(NumericView, Seq<char>),
    UnicodeRange(u32, u32),
    WhiteSpace,
    Comment(Seq<char>),
    Colon,
    Semicolon,
    Comma,
    IncludeMatch,
    DashMatch,
    PrefixMatch,
    SuffixMatch,
    SubstringMatch,
    Column,
    CDO,
    CDC,
    Function(Seq<char>),
    ParenthesisBlock,
    SquareBracketBlock,
    CurlyBracketBlock,
    BadURL,
    BadString,
    CloseParenthesis,
    CloseSquareBracket,
    CloseCurlyBracket,
}

impl View for Token {
    type V = TokenView;

    open spec fn view(&self) -> TokenView {
        match *self {
            Token::Ident(s) => TokenView::Ident(s@),
            Token::AtKeyword(s) => TokenView::AtKeyword(s@),
            Token::Hash(s) => TokenView::Hash(s@),
            Token::IDHash(s) => TokenView::IDHash(s@),
            Token::String(s) => TokenView::String(s@),
            Token::URL(s) => TokenView::URL(s@),
            Token::Delim(c) => TokenView::Delim(c),
            Token::Number(n) => TokenView::Number(n@),
            Token::Percentage(n) => TokenView::Percentage(n@),
            Token::Dimension(n, unit) => TokenView::Dimension(n@, unit@),
            Token::UnicodeRange(start, end) => TokenView::UnicodeRange(start, end),
            Token::WhiteSpace => TokenView::WhiteSpace,
            Token::Comment(s) => TokenView::Comment(s@),
            Token::Colon => TokenView::Colon,
            Token::Semicolon => TokenView::Semicolon,
            Token::Comma => TokenView::Comma,
            Token::IncludeMatch => TokenView::IncludeMatch,
            Token::DashMatch => TokenView::DashMatch,
            Token::PrefixMatch => TokenView::PrefixMatch,
            Token::SuffixMatch => TokenView::SuffixMatch,
            Token::SubstringMatch => TokenView::SubstringMatch,
            Token::Column => TokenView::Column,
            Token::CDO => TokenView::CDO,
            Token::CDC => TokenView::CDC,
            Token::Function(s) => TokenView::Function(s@),
            Token::ParenthesisBlock => TokenView::ParenthesisBlock,
            Token::SquareBracketBlock => TokenView::SquareBracketBlock,
            Token::CurlyBracketBlock => TokenView::CurlyBracketBlock,
            Token::BadURL => TokenView::BadURL,
            Token::BadString => TokenView::BadString,
            Token::CloseParenthesis => TokenView::CloseParenthesis,
            Token::CloseSquareBracket => TokenView::CloseSquareBracket,
            Token::CloseCurlyBracket => TokenView::CloseCurlyBracket,
        }
    }
}

/// The three kinds of bracket that enclose a block.
#[derive(Clone, Copy, Debug, PartialEq, Eq, Structural)]
pub enum BlockType {
    Parenthesis,
    SquareBracket,
    CurlyBracket,
}

impl Token {
    /// The kind of block that the token opens, if it opens one. A function
    /// opens a block that a `)` closes.
    pub open spec fn spec_opening(&self) -> Option<BlockType> {
        match *self {
            Token::Function(_) => Some(BlockType::Parenthesis),
            Token::ParenthesisBlock => Some(BlockType::Parenthesis),
            Token::SquareBracketBlock => Some(BlockType::SquareBracket),
            Token::CurlyBracketBlock => Some(BlockType::CurlyBracket),
            _ => None,
        }
    }

    #[verifier::when_used_as_spec(spec_opening)]
    pub fn opening(&self) -> (r: Option<BlockType>)
        ensures
            r == self.spec_opening(),
    {
        match self {
            Token::Function(_) => Some(BlockType::Parenthesis),
            Token::ParenthesisBlock => Some(BlockType::Parenthesis),
            Token::SquareBracketBlock => Some(BlockType::SquareBracket),
            Token::CurlyBracketBlock => Some(BlockType::CurlyBracket),
            _ => None,
        }
    }

    /// The kind of block that the token closes, if it is a closing bracket.
    pub open spec fn spec_closing(&self) -> Option<BlockType> {
        match *self {
            Token::CloseParenthesis => Some(BlockType::Parenthesis),
            Token::CloseSquareBracket => Some(BlockType::SquareBracket),
            Token::CloseCurlyBracket => Some(BlockType::CurlyBracket),
            _ => None,
        }
    }

    #[verifier::when_used_as_spec(spec_closing)]
    pub fn closing(&self) -> (r: Option<BlockType>)
        ensures
            r == self.spec_closing(),
    {
        match self {
            Token::CloseParenthesis => Some(BlockType::Parenthesis),
            Token::CloseSquareBracket => Some(BlockType::SquareBracket),
            Token::CloseCurlyBracket => Some(BlockType::CurlyBracket),
            _ => None,
        }
    }

    /// Whitespace or a comment: what the parser passes over unless asked.
    pub open spec fn spec_is_trivia(&self) -> bool {
        *self is WhiteSpace || *self is Comment
    }

    #[verifier::when_used_as_spec(spec_is_trivia)]
    pub fn is_trivia(&self) -> (r: bool)
        ensures
            r == self.spec_is_trivia(),
    {
        matches!(self, Token::WhiteSpace | Token::Comment(_))
    }
}

} // verus!
