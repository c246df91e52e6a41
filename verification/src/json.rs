//! Component values, rules and declarations as JSON values, in the shape
//! in which test suites for CSS parsers write what they expect.

use vstd::prelude::*;
use vstd::string::StringExecFns;
use crate::chars::{decimal_text, write_decimal};
use crate::ast::{
    AtRule, ComponentValue, Declaration, DeclarationListItem, ErrorReason, Node, NumericValue,
    QualifiedRule, Rule, SyntaxError,
};

verus! {

/// A JSON value without objects. A number is held as the text that writes
/// it: a sign or none, digits, and a fraction and an exponent where it has
/// them.
#[derive(Debug, PartialEq, Eq)]
pub enum Json {
    Null,
    Boolean(bool),
    Number(String),
    String(String),
    List(Vec<Json>),
}

/// What a JSON value holds, as mathematical values.
pub enum JsonView {
    Null,
    Boolean(bool),
    Number(Seq<char>),
    String(Seq<char>),
    List(Seq<JsonView>),
}

impl View for Json {
    type V = JsonView;

    open spec fn view(&self) -> JsonView
        decreases self,
    {
        match self {
            Json::Null => JsonView::Null,
            Json::Boolean(b) => JsonView::Boolean(*b),
            Json::Number(n) => JsonView::Number(n@),
            Json::String(s) => JsonView::String(s@),
            Json::List(items) => JsonView::List(
                Seq::new(
                    items@.len(),
                    |i: int|
                        if 0 <= i < items@.len() {
                            items@[i]@
                        } else {
                            JsonView::Null
                        },
                ),
            ),
        }
    }
}

/// The views of JSON values, in order.
pub open spec fn views(items: Seq<Json>) -> Seq<JsonView> {
    Seq::new(items.len(), |i: int| items[i]@)
}

/// The view of a list is the list of the views.
pub proof fn lemma_list_view(items: Vec<Json>)
    ensures
        Json::List(items)@ == JsonView::List(views(items@)),
{
    assert(Json::List(items)@->List_0 =~= views(items@));
}

/// The views of values with one more are the views with one more.
pub proof fn lemma_views_push(items: Seq<Json>, item: Json)
    ensures
        views(items.push(item)) == views(items).push(item@),
{
    assert(views(items.push(item)) =~= views(items).push(item@));
}

fn push(items: &mut Vec<Json>, item: Json)
    ensures
        final(items)@ == old(items)@.push(item),
        views(final(items)@) == views(old(items)@).push(item@),
{
    proof {
        lemma_views_push(items@, item);
    }
    items.push(item);
}

fn string(text: &str) -> (r: Json)
    ensures
        r@ == JsonView::String(text@),
{
    Json::String(String::from_str(text))
}

fn list(items: Vec<Json>) -> (r: Json)
    ensures
        r@ == JsonView::List(views(items@)),
{
    proof {
        lemma_list_view(items);
    }
    Json::List(items)
}

fn integer(n: u32) -> (r: Json)
    ensures
        r@ == JsonView::Number(decimal_text(n as nat)),
{
    let mut text = String::new();
    write_decimal(n as usize, &mut text);
    assert(text@ =~= decimal_text(n as nat));
    Json::Number(text)
}

/// What a numeric value adds to the list of its token: its text, its
/// value, and whether it is an integer.
pub open spec fn numeric_json(value: NumericValue) -> Seq<JsonView> {
    seq![
        JsonView::String(value.representation@),
        JsonView::Number(value.representation@),
        JsonView::String(
            if value.int_value is Some {
                "integer"@
            } else {
                "number"@
            },
        ),
    ]
}

fn push_numeric(value: &NumericValue, items: &mut Vec<Json>)
    ensures
        views(final(items)@) == views(old(items)@) + numeric_json(*value),
{
    push(items, Json::String(value.representation.clone()));
    push(items, Json::Number(value.representation.clone()));
    push(items, string(if value.int_value.is_some() {
        "integer"
    } else {
        "number"
    }));
    assert(views(items@) =~= views(old(items)@) + numeric_json(*value));
}

/// A list of a tag and what follows it.
pub open spec fn tagged(tag: Seq<char>, rest: Seq<JsonView>) -> JsonView {
    JsonView::List(seq![JsonView::String(tag)] + rest)
}

/// The JSON value of a component value: a string for whitespace and for
/// the tokens that are punctuation, and for everything else a list that
/// starts with the name of its kind.
pub open spec fn value_json(value: ComponentValue) -> JsonView
    decreases value,
{
    match value {
        ComponentValue::Ident(v) => tagged("ident"@, seq![JsonView::String(v@)]),
        ComponentValue::AtKeyword(v) => tagged("at-keyword"@, seq![JsonView::String(v@)]),
        ComponentValue::Hash(v) => tagged(
            "hash"@,
            seq![JsonView::String(v@), JsonView::String("unrestricted"@)],
        ),
        ComponentValue::IDHash(v) => tagged(
            "hash"@,
            seq![JsonView::String(v@), JsonView::String("id"@)],
        ),
        ComponentValue::String(v) => tagged("string"@, seq![JsonView::String(v@)]),
        ComponentValue::URL(v) => tagged("url"@, seq![JsonView::String(v@)]),
        ComponentValue::Delim(c) => JsonView::String(seq![c]),
        ComponentValue::Number(n) => tagged("number"@, numeric_json(n)),
        ComponentValue::Percentage(n) => tagged("percentage"@, numeric_json(n)),
        ComponentValue::Dimension(n, unit) => tagged(
            "dimension"@,
            numeric_json(n) + seq![JsonView::String(unit@)],
        ),
        ComponentValue::UnicodeRange(start, end) => tagged(
            "unicode-range"@,
            seq![
                JsonView::Number(decimal_text(start as nat)),
                JsonView::Number(decimal_text(end as nat)),
            ],
        ),
        ComponentValue::WhiteSpace => JsonView::String(" "@),
        ComponentValue::Colon => JsonView::String(":"@),
        ComponentValue::Semicolon => JsonView::String(";"@),
        ComponentValue::Comma => JsonView::String(","@),
        ComponentValue::IncludeMatch => JsonView::String("~="@),
        ComponentValue::DashMatch => JsonView::String("|="@),
        ComponentValue::PrefixMatch => JsonView::String("^="@),
        ComponentValue::SuffixMatch => JsonView::String("$="@),
        ComponentValue::SubstringMatch => JsonView::String("*="@),
        ComponentValue::Column => JsonView::String("||"@),
        ComponentValue::CDO => JsonView::String("<!--"@),
        ComponentValue::CDC => JsonView::String("-->"@),
        ComponentValue::Function(name, arguments) => tagged(
            "function"@,
            seq![JsonView::String(name@)] + values_json(arguments@),
        ),
        ComponentValue::ParenthesisBlock(content) => tagged("()"@, values_json(content@)),
        ComponentValue::SquareBracketBlock(content) => tagged("[]"@, values_json(content@)),
        ComponentValue::CurlyBracketBlock(content) => tagged("{}"@, nodes_json(content@)),
        ComponentValue::BadURL => tagged("error"@, seq![JsonView::String("bad-url"@)]),
        ComponentValue::BadString => tagged("error"@, seq![JsonView::String("bad-string"@)]),
        ComponentValue::CloseParenthesis => tagged("error"@, seq![JsonView::String(")"@)]),
        ComponentValue::CloseSquareBracket => tagged("error"@, seq![JsonView::String("]"@)]),
        ComponentValue::CloseCurlyBracket => tagged("error"@, seq![JsonView::String("}"@)]),
    }
}

/// The JSON values of component values, in order.
pub open spec fn values_json(values: Seq<ComponentValue>) -> Seq<JsonView>
    decreases values,
{
    Seq::new(
        values.len(),
        |i: int|
            if 0 <= i < values.len() {
                value_json(values[i])
            } else {
                JsonView::Null
            },
    )
}

/// The JSON values of the component values of nodes, in order.
pub open spec fn nodes_json(nodes: Seq<Node>) -> Seq<JsonView>
    decreases nodes,
{
    Seq::new(
        nodes.len(),
        |i: int|
            if 0 <= i < nodes.len() {
                value_json(nodes[i].0)
            } else {
                JsonView::Null
            },
    )
}

fn tagged_list(tag: &str, rest: Vec<Json>) -> (r: Json)
    ensures
        r@ == tagged(tag@, views(rest@)),
{
    let mut items: Vec<Json> = Vec::new();
    push(&mut items, string(tag));
    let mut rest = rest;
    let ghost tail = rest@;
    items.append(&mut rest);
    assert(views(items@) =~= seq![JsonView::String(tag@)] + views(tail));
    list(items)
}

fn push_values(values: &Vec<ComponentValue>, items: &mut Vec<Json>)
    ensures
        views(final(items)@) == views(old(items)@) + values_json(values@),
    decreases values,
{
    let mut i: usize = 0;
    while i < values.len()
        invariant
            i <= values@.len(),
            views(items@) == views(old(items)@) + values_json(values@).take(i as int),
        decreases values@.len() - i,
    {
        push(items, values[i].to_json());
        assert(values_json(values@).take(i + 1) =~= values_json(values@).take(i as int).push(
            value_json(values@[i as int]),
        ));
        i = i + 1;
        assert(views(items@) =~= views(old(items)@) + values_json(values@).take(i as int));
    }
    assert(values_json(values@).take(i as int) =~= values_json(values@));
}

fn push_nodes(nodes: &Vec<Node>, items: &mut Vec<Json>)
    ensures
        views(final(items)@) == views(old(items)@) + nodes_json(nodes@),
    decreases nodes,
{
    let mut i: usize = 0;
    while i < nodes.len()
        invariant
            i <= nodes@.len(),
            views(items@) == views(old(items)@) + nodes_json(nodes@).take(i as int),
        decreases nodes@.len() - i,
    {
        push(items, nodes[i].0.to_json());
        assert(nodes_json(nodes@).take(i + 1) =~= nodes_json(nodes@).take(i as int).push(
            value_json(nodes@[i as int].0),
        ));
        i = i + 1;
        assert(views(items@) =~= views(old(items)@) + nodes_json(nodes@).take(i as int));
    }
    assert(nodes_json(nodes@).take(i as int) =~= nodes_json(nodes@));
}

fn one(text: &String) -> (r: Vec<Json>)
    ensures
        views(r@) == seq![JsonView::String(text@)],
{
    let mut items: Vec<Json> = Vec::new();
    push(&mut items, Json::String(text.clone()));
    assert(views(items@) =~= seq![JsonView::String(text@)]);
    items
}

fn one_word(text: &str) -> (r: Vec<Json>)
    ensures
        views(r@) == seq![JsonView::String(text@)],
{
    let mut items: Vec<Json> = Vec::new();
    push(&mut items, string(text));
    assert(views(items@) =~= seq![JsonView::String(text@)]);
    items
}

impl ComponentValue {
    /// The component value as a JSON value.
    pub fn to_json(&self) -> (r: Json)
        ensures
            r@ == value_json(*self),
        decreases self,
    {
        match self {
            ComponentValue::Ident(v) => tagged_list("ident", one(v)),
            ComponentValue::AtKeyword(v) => tagged_list("at-keyword", one(v)),
            ComponentValue::Hash(v) => {
                let mut rest = one(v);
                push(&mut rest, string("unrestricted"));
                assert(views(rest@) =~= seq![
                    JsonView::String(v@),
                    JsonView::String("unrestricted"@),
                ]);
                tagged_list("hash", rest)
            },
            ComponentValue::IDHash(v) => {
                let mut rest = one(v);
                push(&mut rest, string("id"));
                assert(views(rest@) =~= seq![JsonView::String(v@), JsonView::String("id"@)]);
                tagged_list("hash", rest)
            },
            ComponentValue::String(v) => tagged_list("string", one(v)),
            ComponentValue::URL(v) => tagged_list("url", one(v)),
            ComponentValue::Delim(c) => {
                let mut text = String::new();
                text.push(*c);
                assert(text@ =~= seq![*c]);
                Json::String(text)
            },
            ComponentValue::Number(n) => {
                let mut rest: Vec<Json> = Vec::new();
                push_numeric(n, &mut rest);
                assert(views(rest@) =~= numeric_json(*n));
                tagged_list("number", rest)
            },
            ComponentValue::Percentage(n) => {
                let mut rest: Vec<Json> = Vec::new();
                push_numeric(n, &mut rest);
                assert(views(rest@) =~= numeric_json(*n));
                tagged_list("percentage", rest)
            },
            ComponentValue::Dimension(n, unit) => {
                let mut rest: Vec<Json> = Vec::new();
                push_numeric(n, &mut rest);
                push(&mut rest, Json::String(unit.clone()));
                assert(views(rest@) =~= numeric_json(*n) + seq![JsonView::String(unit@)]);
                tagged_list("dimension", rest)
            },
            ComponentValue::UnicodeRange(start, end) => {
                let mut rest: Vec<Json> = Vec::new();
                push(&mut rest, integer(*start));
                push(&mut rest, integer(*end));
                assert(views(rest@) =~= seq![
                    JsonView::Number(decimal_text(*start as nat)),
                    JsonView::Number(decimal_text(*end as nat)),
                ]);
                tagged_list("unicode-range", rest)
            },
            ComponentValue::WhiteSpace => string(" "),
            ComponentValue::Colon => string(":"),
            ComponentValue::Semicolon => string(";"),
            ComponentValue::Comma => string(","),
            ComponentValue::IncludeMatch => string("~="),
            ComponentValue::DashMatch => string("|="),
            ComponentValue::PrefixMatch => string("^="),
            ComponentValue::SuffixMatch => string("$="),
            ComponentValue::SubstringMatch => string("*="),
            ComponentValue::Column => string("||"),
            ComponentValue::CDO => string("<!--"),
            ComponentValue::CDC => string("-->"),
            ComponentValue::Function(name, arguments) => {
                let mut rest = one(name);
                push_values(arguments, &mut rest);
                tagged_list("function", rest)
            },
            ComponentValue::ParenthesisBlock(content) => {
                let mut rest: Vec<Json> = Vec::new();
                push_values(content, &mut rest);
                assert(views(rest@) =~= values_json(content@));
                tagged_list("()", rest)
            },
            ComponentValue::SquareBracketBlock(content) => {
                let mut rest: Vec<Json> = Vec::new();
                push_values(content, &mut rest);
                assert(views(rest@) =~= values_json(content@));
                tagged_list("[]", rest)
            },
            ComponentValue::CurlyBracketBlock(content) => {
                let mut rest: Vec<Json> = Vec::new();
                push_nodes(content, &mut rest);
                assert(views(rest@) =~= nodes_json(content@));
                tagged_list("{}", rest)
            },
            ComponentValue::BadURL => tagged_list("error", one_word("bad-url")),
            ComponentValue::BadString => tagged_list("error", one_word("bad-string")),
            ComponentValue::CloseParenthesis => tagged_list("error", one_word(")")),
            ComponentValue::CloseSquareBracket => tagged_list("error", one_word("]")),
            ComponentValue::CloseCurlyBracket => tagged_list("error", one_word("}")),
        }
    }
}

/// The JSON list of component values.
pub fn values_to_json(values: &Vec<ComponentValue>) -> (r: Json)
    ensures
        r@ == JsonView::List(values_json(values@)),
{
    let mut items: Vec<Json> = Vec::new();
    push_values(values, &mut items);
    assert(views(items@) =~= values_json(values@));
    list(items)
}

/// The JSON list of the component values of nodes.
pub fn list_to_json(nodes: &Vec<Node>) -> (r: Json)
    ensures
        r@ == JsonView::List(nodes_json(nodes@)),
{
    let mut items: Vec<Json> = Vec::new();
    push_nodes(nodes, &mut items);
    assert(views(items@) =~= nodes_json(nodes@));
    list(items)
}

/// The JSON value of an at-rule: its name, its prelude, and its block or
/// null.
pub open spec fn at_rule_json(rule: AtRule) -> JsonView {
    tagged(
        "at-rule"@,
        seq![
            JsonView::String(rule.name@),
            JsonView::List(values_json(rule.prelude@)),
            match rule.block {
                Some(block) => JsonView::List(nodes_json(block@)),
                None => JsonView::Null,
            },
        ],
    )
}

impl AtRule {
    /// The at-rule as a JSON value.
    pub fn to_json(&self) -> (r: Json)
        ensures
            r@ == at_rule_json(*self),
    {
        let mut rest = one(&self.name);
        push(&mut rest, values_to_json(&self.prelude));
        push(
            &mut rest,
            match &self.block {
                Some(block) => list_to_json(block),
                None => Json::Null,
            },
        );
        assert(views(rest@) =~= seq![
            JsonView::String(self.name@),
            JsonView::List(values_json(self.prelude@)),
            match self.block {
                Some(block) => JsonView::List(nodes_json(block@)),
                None => JsonView::Null,
            },
        ]);
        tagged_list("at-rule", rest)
    }
}

/// The JSON value of a qualified rule: its prelude and its block.
pub open spec fn qualified_rule_json(rule: QualifiedRule) -> JsonView {
    tagged(
        "qualified rule"@,
        seq![JsonView::List(values_json(rule.prelude@)), JsonView::List(nodes_json(rule.block@))],
    )
}

impl QualifiedRule {
    /// The qualified rule as a JSON value.
    pub fn to_json(&self) -> (r: Json)
        ensures
            r@ == qualified_rule_json(*self),
    {
        let mut rest: Vec<Json> = Vec::new();
        push(&mut rest, values_to_json(&self.prelude));
        push(&mut rest, list_to_json(&self.block));
        assert(views(rest@) =~= seq![
            JsonView::List(values_json(self.prelude@)),
            JsonView::List(nodes_json(self.block@)),
        ]);
        tagged_list("qualified rule", rest)
    }
}

/// The JSON value of a declaration: its name, its value, and whether it is
/// important.
pub open spec fn declaration_json(declaration: Declaration) -> JsonView {
    tagged(
        "declaration"@,
        seq![
            JsonView::String(declaration.name@),
            JsonView::List(values_json(declaration.value@)),
            JsonView::Boolean(declaration.important),
        ],
    )
}

impl Declaration {
    /// The declaration as a JSON value.
    pub fn to_json(&self) -> (r: Json)
        ensures
            r@ == declaration_json(*self),
    {
        let mut rest = one(&self.name);
        push(&mut rest, values_to_json(&self.value));
        push(&mut rest, Json::Boolean(self.important));
        assert(views(rest@) =~= seq![
            JsonView::String(self.name@),
            JsonView::List(values_json(self.value@)),
            JsonView::Boolean(self.important),
        ]);
        tagged_list("declaration", rest)
    }
}

impl Rule {
    /// The rule as a JSON value.
    pub fn to_json(&self) -> (r: Json)
        ensures
            r@ == match *self {
                Rule::QualifiedRule(rule) => qualified_rule_json(rule),
                Rule::AtRule(rule) => at_rule_json(rule),
            },
    {
        match self {
            Rule::QualifiedRule(rule) => rule.to_json(),
            Rule::AtRule(rule) => rule.to_json(),
        }
    }
}

impl DeclarationListItem {
    /// The item as a JSON value.
    pub fn to_json(&self) -> (r: Json)
        ensures
            r@ == match *self {
                DeclarationListItem::Declaration(declaration) => declaration_json(declaration),
                DeclarationListItem::DeclAtRule(rule) => at_rule_json(rule),
            },
    {
        match self {
            DeclarationListItem::Declaration(declaration) => declaration.to_json(),
            DeclarationListItem::DeclAtRule(rule) => rule.to_json(),
        }
    }
}

/// The name under which a reason stands in the JSON value of an error.
pub open spec fn reason_name(reason: ErrorReason) -> Seq<char> {
    match reason {
        ErrorReason::ErrEmptyInput => "empty"@,
        ErrorReason::ErrExtraInput => "extra-input"@,
        _ => "invalid"@,
    }
}

/// The JSON value of an error: a list of `error` and the name of the
/// reason.
pub open spec fn error_json(error: SyntaxError) -> JsonView {
    tagged("error"@, seq![JsonView::String(reason_name(error.reason))])
}

/// The JSON value of what reading one component value gave: that of the
/// value, or that of the error.
pub open spec fn result_json(result: Result<ComponentValue, SyntaxError>) -> JsonView {
    match result {
        Ok(value) => value_json(value),
        Err(error) => error_json(error),
    }
}

/// What reading one component value gave, as a JSON value.
pub fn result_to_json(result: &Result<ComponentValue, SyntaxError>) -> (r: Json)
    ensures
        r@ == result_json(*result),
{
    match result {
        Ok(value) => value.to_json(),
        Err(error) => error.to_json(),
    }
}

impl SyntaxError {
    /// The error as a JSON value: a list of `error` and the name of the
    /// reason.
    pub fn to_json(&self) -> (r: Json)
        ensures
            r@ == error_json(*self),
    {
        tagged_list(
            "error",
            one_word(
                match self.reason {
                    ErrorReason::ErrEmptyInput => "empty",
                    ErrorReason::ErrExtraInput => "extra-input",
                    _ => "invalid",
                },
            ),
        )
    }
}

} // verus!
