//! The syntax tree: component values, declarations, rules and errors.

use vstd::prelude::*;
use crate::chars::{decimal_text, write_decimal, write_text};

verus! {

/// The numeric part of a number, percentage or dimension.
///
/// `representation` is the source text of the number, sign and exponent
/// included. `int_value` is present when the text has neither a fraction nor
/// an exponent and its value fits in 32 bits.
#[derive(Debug, PartialEq, Eq)]
pub struct NumericValue {
    pub representation: String,
    pub int_value: Option<i64>,
}

impl Clone for NumericValue {
    fn clone(&self) -> (r: Self)
        ensures
            r == *self,
    {
        NumericValue { representation: self.representation.clone(), int_value: self.int_value }
    }
}

impl NumericValue {
    /// Whether the source text starts with an explicit `+` or `-`.
    pub open spec fn spec_has_sign(&self) -> bool {
        self.representation@.len() > 0 && (self.representation@[0] == '+'
            || self.representation@[0] == '-')
    }

    /// Whether the source text starts with an explicit `+` or `-`.
    #[verifier::when_used_as_spec(spec_has_sign)]
    pub fn has_sign(&self) -> (r: bool)
        ensures
            r == self.spec_has_sign(),
    {
        if self.representation.as_str().is_empty() {
            false
        } else {
            let first = self.representation.as_str().get_char(0);
            first == '+' || first == '-'
        }
    }
}

/// A place in the source text. The first line is 1, and so is the first
/// column of a line.
#[derive(Clone, Copy, Debug, PartialEq, Eq, Structural)]
pub struct SourceLocation {
    pub line: usize,
    pub column: usize,
}

/// A component value with the place where it starts.
pub type Node = (ComponentValue, SourceLocation);

/// A component value: a preserved token, a function or a simple block with
/// everything it encloses.
#[derive(Debug, PartialEq, Eq)]
pub enum ComponentValue {
    // Preserved tokens.
    Ident(String),
    AtKeyword(String),
    Hash(String),
    /// A hash whose value is a valid identifier.
    IDHash(String),
    String(String),
    URL(String),
    Delim(char),
    Number(NumericValue),
    Percentage(NumericValue),
    Dimension(NumericValue, String),
    /// First and last code point of the range.
    UnicodeRange(u32, u32),
    WhiteSpace,
    Colon,
    Semicolon,
    Comma,
    /// `~=`
    IncludeMatch,
    /// `|=`
    DashMatch,
    /// `^=`
    PrefixMatch,
    /// `$=`
    SuffixMatch,
    /// `*=`
    SubstringMatch,
    /// `||`
    Column,
    /// `<!--`
    CDO,
    /// `-->`
    CDC,
    /// Name and arguments.
    Function(String, Vec<ComponentValue>),
    /// `(…)`
    ParenthesisBlock(Vec<ComponentValue>),
    /// `[…]`
    SquareBracketBlock(Vec<ComponentValue>),
    /// `{…}`
    CurlyBracketBlock(Vec<Node>),
    // These are always invalid.
    BadURL,
    BadString,
    /// `)` with nothing to close.
    CloseParenthesis,
    /// `]` with nothing to close.
    CloseSquareBracket,
    /// `}` with nothing to close.
    CloseCurlyBracket,
}

/// Whether two component values are the same: the same token, and for a
/// function or a block the same values inside, one for one.
pub open spec fn same_value(a: ComponentValue, b: ComponentValue) -> bool
    decreases a,
{
    match a {
        ComponentValue::Function(name, arguments) => b is Function && b->Function_0 == name
            && same_values(arguments@, b->Function_1@),
        ComponentValue::ParenthesisBlock(content) => b is ParenthesisBlock && same_values(
            content@,
            b->ParenthesisBlock_0@,
        ),
        ComponentValue::SquareBracketBlock(content) => b is SquareBracketBlock && same_values(
            content@,
            b->SquareBracketBlock_0@,
        ),
        ComponentValue::CurlyBracketBlock(content) => b is CurlyBracketBlock && same_nodes(
            content@,
            b->CurlyBracketBlock_0@,
        ),
        _ => a == b,
    }
}

/// Whether component values are the same, one for one.
pub open spec fn same_values(a: Seq<ComponentValue>, b: Seq<ComponentValue>) -> bool
    decreases a,
{
    a.len() == b.len() && forall|i: int| 0 <= i < a.len() ==> same_value(#[trigger] a[i], b[i])
}

/// Whether nodes hold the same component values at the same places, one
/// for one.
pub open spec fn same_nodes(a: Seq<Node>, b: Seq<Node>) -> bool
    decreases a,
{
    a.len() == b.len() && forall|i: int|
        0 <= i < a.len() ==> same_value((#[trigger] a[i]).0, b[i].0) && a[i].1 == b[i].1
}

impl Clone for ComponentValue {
    /// A component value that is the same as this one, with what it holds
    /// cloned as well.
    fn clone(&self) -> (r: Self)
        ensures
            same_value(*self, r),
    {
        clone_value(self)
    }
}

fn clone_value(value: &ComponentValue) -> (r: ComponentValue)
    ensures
        same_value(*value, r),
    decreases value,
{
    match value {
        ComponentValue::Ident(s) => ComponentValue::Ident(s.clone()),
        ComponentValue::AtKeyword(s) => ComponentValue::AtKeyword(s.clone()),
        ComponentValue::Hash(s) => ComponentValue::Hash(s.clone()),
        ComponentValue::IDHash(s) => ComponentValue::IDHash(s.clone()),
        ComponentValue::String(s) => ComponentValue::String(s.clone()),
        ComponentValue::URL(s) => ComponentValue::URL(s.clone()),
        ComponentValue::Delim(c) => ComponentValue::Delim(*c),
        ComponentValue::Number(n) => ComponentValue::Number(n.clone()),
        ComponentValue::Percentage(n) => ComponentValue::Percentage(n.clone()),
        ComponentValue::Dimension(n, unit) => ComponentValue::Dimension(n.clone(), unit.clone()),
        ComponentValue::UnicodeRange(start, end) => ComponentValue::UnicodeRange(*start, *end),
        ComponentValue::WhiteSpace => ComponentValue::WhiteSpace,
        ComponentValue::Colon => ComponentValue::Colon,
        ComponentValue::Semicolon => ComponentValue::Semicolon,
        ComponentValue::Comma => ComponentValue::Comma,
        ComponentValue::IncludeMatch => ComponentValue::IncludeMatch,
        ComponentValue::DashMatch => ComponentValue::DashMatch,
        ComponentValue::PrefixMatch => ComponentValue::PrefixMatch,
        ComponentValue::SuffixMatch => ComponentValue::SuffixMatch,
        ComponentValue::SubstringMatch => ComponentValue::SubstringMatch,
        ComponentValue::Column => ComponentValue::Column,
        ComponentValue::CDO => ComponentValue::CDO,
        ComponentValue::CDC => ComponentValue::CDC,
        ComponentValue::Function(name, arguments) => ComponentValue::Function(
            name.clone(),
            clone_values(arguments),
        ),
        ComponentValue::ParenthesisBlock(content) => ComponentValue::ParenthesisBlock(
            clone_values(content),
        ),
        ComponentValue::SquareBracketBlock(content) => ComponentValue::SquareBracketBlock(
            clone_values(content),
        ),
        ComponentValue::CurlyBracketBlock(content) => ComponentValue::CurlyBracketBlock(
            clone_nodes(content),
        ),
        ComponentValue::BadURL => ComponentValue::BadURL,
        ComponentValue::BadString => ComponentValue::BadString,
        ComponentValue::CloseParenthesis => ComponentValue::CloseParenthesis,
        ComponentValue::CloseSquareBracket => ComponentValue::CloseSquareBracket,
        ComponentValue::CloseCurlyBracket => ComponentValue::CloseCurlyBracket,
    }
}

fn clone_values(values: &Vec<ComponentValue>) -> (r: Vec<ComponentValue>)
    ensures
        same_values(values@, r@),
    decreases values,
{
    let mut r: Vec<ComponentValue> = Vec::new();
    let mut i: usize = 0;
    while i < values.len()
        invariant
            i <= values@.len(),
            r@.len() == i,
            forall|k: int| 0 <= k < i ==> same_value(#[trigger] values@[k], r@[k]),
        decreases values@.len() - i,
    {
        r.push(clone_value(&values[i]));
        i = i + 1;
    }
    r
}

fn clone_nodes(nodes: &Vec<Node>) -> (r: Vec<Node>)
    ensures
        same_nodes(nodes@, r@),
    decreases nodes,
{
    let mut r: Vec<Node> = Vec::new();
    let mut i: usize = 0;
    while i < nodes.len()
        invariant
            i <= nodes@.len(),
            r@.len() == i,
            forall|k: int|
                0 <= k < i ==> same_value((#[trigger] nodes@[k]).0, r@[k].0) && nodes@[k].1
                    == r@[k].1,
        decreases nodes@.len() - i,
    {
        r.push((clone_value(&nodes[i].0), nodes[i].1));
        i = i + 1;
    }
    r
}

/// A declaration: a name, a value without the whitespace around it, and
/// whether it ends with `!important`.
#[derive(Clone, Debug, PartialEq, Eq)]
pub struct Declaration {
    pub location: SourceLocation,
    pub name: String,
    pub value: Vec<ComponentValue>,
    pub important: bool,
}

/// A rule that starts with no at-keyword: a prelude and a block.
#[derive(Clone, Debug, PartialEq, Eq)]
pub struct QualifiedRule {
    pub location: SourceLocation,
    pub prelude: Vec<ComponentValue>,
    pub block: Vec<Node>,
}

/// A rule that starts with an at-keyword: a name, a prelude, and a block
/// unless the rule ends with `;`.
#[derive(Clone, Debug, PartialEq, Eq)]
pub struct AtRule {
    pub location: SourceLocation,
    pub name: String,
    pub prelude: Vec<ComponentValue>,
    pub block: Option<Vec<Node>>,
}

/// What a list of declarations holds.
#[derive(Clone, Debug, PartialEq, Eq)]
pub enum DeclarationListItem {
    Declaration(Declaration),
    DeclAtRule(AtRule),
}

/// What a list of rules holds.
#[derive(Clone, Debug, PartialEq, Eq)]
pub enum Rule {
    QualifiedRule(QualifiedRule),
    AtRule(AtRule),
}

/// What is wrong, and where.
#[derive(Clone, Copy, Debug, PartialEq, Eq, Structural)]
pub struct SyntaxError {
    pub location: SourceLocation,
    pub reason: ErrorReason,
}

/// The ways in which a text can fail to be what was asked for.
#[derive(Clone, Copy, Debug, PartialEq, Eq, Structural)]
pub enum ErrorReason {
    /// Parsing a single "thing", found only whitespace.
    ErrEmptyInput,
    /// Found more non-whitespace after parsing a single "thing".
    ErrExtraInput,
    /// End of input in a qualified rule prelude, before `{`.
    ErrMissingQualifiedRuleBlock,
    ErrInvalidDeclarationSyntax,
    ErrInvalidBangImportantSyntax,
}

/// The name of a reason, as the text of an error writes it.
pub open spec fn reason_text(reason: ErrorReason) -> Seq<char> {
    match reason {
        ErrorReason::ErrEmptyInput => "ErrEmptyInput"@,
        ErrorReason::ErrExtraInput => "ErrExtraInput"@,
        ErrorReason::ErrMissingQualifiedRuleBlock => "ErrMissingQualifiedRuleBlock"@,
        ErrorReason::ErrInvalidDeclarationSyntax => "ErrInvalidDeclarationSyntax"@,
        ErrorReason::ErrInvalidBangImportantSyntax => "ErrInvalidBangImportantSyntax"@,
    }
}

impl SyntaxError {
    /// The error as a text: the line, `:`, the column, a space and the
    /// name of the reason, the two numbers in decimal digits.
    pub open spec fn text(&self) -> Seq<char> {
        decimal_text(self.location.line as nat) + seq![':'] + decimal_text(
            self.location.column as nat,
        ) + seq![' '] + reason_text(self.reason)
    }

    /// The error as a text, such as `1:5 ErrExtraInput`.
    pub fn to_string(&self) -> (r: String)
        ensures
            r@ == self.text(),
    {
        let mut out = String::new();
        write_decimal(self.location.line, &mut out);
        out.push(':');
        write_decimal(self.location.column, &mut out);
        out.push(' ');
        write_text(
            match self.reason {
                ErrorReason::ErrEmptyInput => "ErrEmptyInput",
                ErrorReason::ErrExtraInput => "ErrExtraInput",
                ErrorReason::ErrMissingQualifiedRuleBlock => "ErrMissingQualifiedRuleBlock",
                ErrorReason::ErrInvalidDeclarationSyntax => "ErrInvalidDeclarationSyntax",
                ErrorReason::ErrInvalidBangImportantSyntax => "ErrInvalidBangImportantSyntax",
            },
            &mut out,
        );
        assert(out@ =~= self.text());
        out
    }
}

/// The index of the first value at or after `i` that is not whitespace, or
/// the length of `s` when only whitespace is left.
pub open spec fn skip_whitespace_from(s: Seq<ComponentValue>, i: int) -> int
    decreases s.len() - i,
{
    if i < 0 || i >= s.len() {
        s.len() as int
    } else if s[i] is WhiteSpace {
        skip_whitespace_from(s, i + 1)
    } else {
        i
    }
}

/// What can be walked without its whitespace, by reference.
pub trait SkipWhitespaceIterable<'a> {
    fn skip_whitespace(self) -> (r: SkipWhitespaceIterator<'a>);
}

impl<'a> SkipWhitespaceIterable<'a> for &'a [ComponentValue] {
    fn skip_whitespace(self) -> (r: SkipWhitespaceIterator<'a>)
        ensures
            r@ == self@,
    {
        SkipWhitespaceIterator { values: self, index: 0 }
    }
}

/// Walks a slice of component values and leaves out the whitespace.
/// Its view is what it has not walked over yet.
pub struct SkipWhitespaceIterator<'a> {
    values: &'a [ComponentValue],
    index: usize,
}

impl<'a> Clone for SkipWhitespaceIterator<'a> {
    fn clone(&self) -> (r: Self)
        ensures
            r@ == self@,
    {
        proof {
            use_type_invariant(self);
        }
        SkipWhitespaceIterator { values: self.values, index: self.index }
    }
}

impl<'a> View for SkipWhitespaceIterator<'a> {
    type V = Seq<ComponentValue>;

    closed spec fn view(&self) -> Seq<ComponentValue> {
        self.values@.skip(self.index as int)
    }
}

impl<'a> SkipWhitespaceIterator<'a> {
    #[verifier::type_invariant]
    spec fn inv(self) -> bool {
        self.index <= self.values@.len()
    }

    /// The next value that is not whitespace.
    pub fn next(&mut self) -> (r: Option<&'a ComponentValue>)
        ensures
            ({
                let k = skip_whitespace_from(old(self)@, 0);
                if k < old(self)@.len() {
                    r == Some(&old(self)@[k]) && final(self)@ == old(self)@.skip(k + 1)
                } else {
                    r is None && final(self)@.len() == 0
                }
            }),
    {
        proof {
            use_type_invariant(&*self);
        }
        let values = self.values;
        let start: usize = self.index;
        let ghost before = self@;
        let mut i: usize = start;
        while i < values.len()
            invariant
                start <= i <= values@.len(),
                *self == *old(self),
                values == self.values,
                before == old(self)@,
                before == values@.skip(start as int),
                skip_whitespace_from(before, 0) == skip_whitespace_from(before, i - start),
            decreases values@.len() - i,
        {
            let value = &values[i];
            assert(before[i - start] == values@[i as int]);
            if !matches!(value, ComponentValue::WhiteSpace) {
                self.index = i + 1;
                assert(self@ =~= before.skip(i - start + 1));
                return Some(value);
            }
            i = i + 1;
        }
        self.index = i;
        None
    }

    /// The next value, whitespace or not.
    pub fn next_including_whitespace(&mut self) -> (r: Option<&'a ComponentValue>)
        ensures
            if old(self)@.len() > 0 {
                r == Some(&old(self)@[0]) && final(self)@ == old(self)@.skip(1)
            } else {
                r is None && final(self)@.len() == 0
            },
    {
        proof {
            use_type_invariant(&*self);
        }
        if self.index < self.values.len() {
            let value = &self.values[self.index];
            self.index = self.index + 1;
            assert(self@ =~= old(self)@.skip(1));
            Some(value)
        } else {
            None
        }
    }
}

/// What can be walked without its whitespace, by value.
pub trait MoveSkipWhitespaceIterable {
    fn move_skip_whitespace(self) -> (r: MoveSkipWhitespaceIterator);
}

impl MoveSkipWhitespaceIterable for Vec<ComponentValue> {
    fn move_skip_whitespace(self) -> (r: MoveSkipWhitespaceIterator)
        ensures
            r@ == self@,
    {
        let mut rest = self;
        let mut reversed: Vec<ComponentValue> = Vec::new();
        let ghost whole = rest@;
        while rest.len() > 0
            invariant
                rest@.len() + reversed@.len() == whole.len(),
                rest@ == whole.take(rest@.len() as int),
                forall|j: int|
                    0 <= j < reversed@.len() ==> reversed@[j] == whole[whole.len() - 1 - j],
            decreases rest@.len(),
        {
            let ghost before = rest@;
            match rest.pop() {
                Some(value) => {
                    reversed.push(value);
                    assert(rest@ =~= whole.take(rest@.len() as int));
                },
                None => {},
            }
        }
        let r = MoveSkipWhitespaceIterator { reversed };
        assert(r@ =~= whole);
        r
    }
}

/// Hands out component values and leaves out the whitespace. Its view is
/// what it has not handed out or left out yet.
pub struct MoveSkipWhitespaceIterator {
    reversed: Vec<ComponentValue>,
}

impl View for MoveSkipWhitespaceIterator {
    type V = Seq<ComponentValue>;

    closed spec fn view(&self) -> Seq<ComponentValue> {
        Seq::new(self.reversed@.len(), |j: int| self.reversed@[self.reversed@.len() - 1 - j])
    }
}

impl MoveSkipWhitespaceIterator {
    /// The next value that is not whitespace.
    pub fn next(&mut self) -> (r: Option<ComponentValue>)
        ensures
            ({
                let k = skip_whitespace_from(old(self)@, 0);
                if k < old(self)@.len() {
                    r == Some(old(self)@[k]) && final(self)@ == old(self)@.skip(k + 1)
                } else {
                    r is None && final(self)@.len() == 0
                }
            }),
    {
        let ghost whole = self@;
        loop
            invariant
                whole == old(self)@,
                self@.len() <= whole.len(),
                self@ == whole.skip(whole.len() - self@.len()),
                skip_whitespace_from(whole, 0) == skip_whitespace_from(
                    whole,
                    whole.len() - self@.len(),
                ),
            decreases self@.len(),
        {
            let ghost before = self@;
            match self.reversed.pop() {
                Some(value) => {
                    assert(value == before[0]);
                    assert(before[0] == whole[whole.len() - before.len()]);
                    assert(self@ =~= before.skip(1));
                    assert(self@ =~= whole.skip(whole.len() - before.len() + 1));
                    if !matches!(value, ComponentValue::WhiteSpace) {
                        return Some(value);
                    }
                },
                None => {
                    return None;
                },
            }
        }
    }
}

} // verus!
