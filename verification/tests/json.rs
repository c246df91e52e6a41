use cssparser::ast::{ErrorReason, SourceLocation, SyntaxError};
use cssparser::json::{list_to_json, result_to_json, values_to_json, Json};
use cssparser::parser::Parser;
use cssparser::rules_and_declarations::{DeclarationListParser, RuleListParser};
use cssparser::syntax::{
    parse_one_component_value, tokenize, DeclarationTreeParser, RuleTreeParser,
};
use cssparser::token_list::TokenList;

fn text(value: &str) -> Json {
    Json::String(value.to_string())
}

fn number(value: &str) -> Json {
    Json::Number(value.to_string())
}

fn list(items: Vec<Json>) -> Json {
    Json::List(items)
}

fn json_of(input: &str) -> Json {
    list_to_json(&tokenize(input))
}

#[test]
fn component_values_have_their_json_shape() {
    assert_eq!(json_of(""), list(vec![]));
    assert_eq!(
        json_of("a @b #c #1 'd' url(e) + \\\n"),
        list(vec![
            list(vec![text("ident"), text("a")]),
            text(" "),
            list(vec![text("at-keyword"), text("b")]),
            text(" "),
            list(vec![text("hash"), text("c"), text("id")]),
            text(" "),
            list(vec![text("hash"), text("1"), text("unrestricted")]),
            text(" "),
            list(vec![text("string"), text("d")]),
            text(" "),
            list(vec![text("url"), text("e")]),
            text(" "),
            text("+"),
            text(" "),
            text("\\"),
            text(" "),
        ])
    );
    assert_eq!(
        json_of("12 +4.5 -3e2% 10px U+26-3f"),
        list(vec![
            list(vec![text("number"), text("12"), number("12"), text("integer")]),
            text(" "),
            list(vec![text("number"), text("+4.5"), number("+4.5"), text("number")]),
            text(" "),
            list(vec![text("percentage"), text("-3e2"), number("-3e2"), text("number")]),
            text(" "),
            list(vec![
                text("dimension"),
                text("10"),
                number("10"),
                text("integer"),
                text("px")
            ]),
            text(" "),
            list(vec![text("unicode-range"), number("38"), number("63")]),
        ])
    );
    assert_eq!(
        json_of(":;,~=|=^=$=*=||<!---->"),
        list(vec![
            text(":"),
            text(";"),
            text(","),
            text("~="),
            text("|="),
            text("^="),
            text("$="),
            text("*="),
            text("||"),
            text("<!--"),
            text("-->"),
        ])
    );
    assert_eq!(
        json_of("f(a){[(]}"),
        list(vec![
            list(vec![text("function"), text("f"), list(vec![text("ident"), text("a")])]),
            list(vec![
                text("{}"),
                list(vec![
                    text("[]"),
                    list(vec![
                        text("()"),
                        list(vec![text("error"), text("]")]),
                        list(vec![text("error"), text("}")]),
                    ]),
                ]),
            ]),
        ])
    );
    assert_eq!(
        json_of(") ] } url(a b) 'c\n"),
        list(vec![
            list(vec![text("error"), text(")")]),
            text(" "),
            list(vec![text("error"), text("]")]),
            text(" "),
            list(vec![text("error"), text("}")]),
            text(" "),
            list(vec![text("error"), text("bad-url")]),
            text(" "),
            list(vec![text("error"), text("bad-string")]),
            text(" "),
        ])
    );
}

#[test]
fn rules_and_declarations_have_their_json_shape() {
    let tokens = TokenList::new("@import 'a'; p { color: red } @media print { a {} }");
    let mut parser = Parser::new(&tokens);
    let rules = RuleListParser::new_for_stylesheet(&mut parser, RuleTreeParser).collect();
    let json: Vec<Json> = rules.iter().map(|rule| rule.as_ref().unwrap().to_json()).collect();
    assert_eq!(
        json,
        vec![
            list(vec![
                text("at-rule"),
                text("import"),
                list(vec![text(" "), list(vec![text("string"), text("a")])]),
                Json::Null,
            ]),
            list(vec![
                text("qualified rule"),
                list(vec![list(vec![text("ident"), text("p")]), text(" ")]),
                list(vec![
                    text(" "),
                    list(vec![text("ident"), text("color")]),
                    text(":"),
                    text(" "),
                    list(vec![text("ident"), text("red")]),
                    text(" "),
                ]),
            ]),
            list(vec![
                text("at-rule"),
                text("media"),
                list(vec![text(" "), list(vec![text("ident"), text("print")]), text(" ")]),
                list(vec![
                    text(" "),
                    list(vec![text("ident"), text("a")]),
                    text(" "),
                    list(vec![text("{}")]),
                    text(" "),
                ]),
            ]),
        ]
    );

    let tokens = TokenList::new("color: red !important; @page x;");
    let mut parser = Parser::new(&tokens);
    let items = DeclarationListParser::new(&mut parser, DeclarationTreeParser).collect();
    let json: Vec<Json> = items.iter().map(|item| item.as_ref().unwrap().to_json()).collect();
    assert_eq!(
        json,
        vec![
            list(vec![
                text("declaration"),
                text("color"),
                list(vec![list(vec![text("ident"), text("red")])]),
                Json::Boolean(true),
            ]),
            list(vec![
                text("at-rule"),
                text("page"),
                list(vec![text(" "), list(vec![text("ident"), text("x")])]),
                Json::Null,
            ]),
        ]
    );
}

#[test]
fn errors_have_their_json_shape() {
    let error = |reason| SyntaxError { location: SourceLocation { line: 1, column: 1 }, reason };
    let named = |name: &str| list(vec![text("error"), text(name)]);
    assert_eq!(error(ErrorReason::ErrEmptyInput).to_json(), named("empty"));
    assert_eq!(error(ErrorReason::ErrExtraInput).to_json(), named("extra-input"));
    assert_eq!(error(ErrorReason::ErrMissingQualifiedRuleBlock).to_json(), named("invalid"));
    assert_eq!(error(ErrorReason::ErrInvalidDeclarationSyntax).to_json(), named("invalid"));
    assert_eq!(error(ErrorReason::ErrInvalidBangImportantSyntax).to_json(), named("invalid"));
}

#[test]
fn a_list_of_values_is_a_json_list() {
    let values = tokenize("a b").into_iter().map(|(value, _)| value).collect();
    assert_eq!(
        values_to_json(&values),
        list(vec![
            list(vec![text("ident"), text("a")]),
            text(" "),
            list(vec![text("ident"), text("b")]),
        ])
    );
}

#[test]
fn what_reading_one_value_gave_is_the_json_of_the_value_or_of_the_error() {
    let read = |input: &str| result_to_json(&parse_one_component_value(tokenize(input)));
    assert_eq!(read(" a "), list(vec![text("ident"), text("a")]));
    assert_eq!(
        read("[1]"),
        list(vec![
            text("[]"),
            list(vec![text("number"), text("1"), number("1"), text("integer")]),
        ])
    );
    assert_eq!(read(""), list(vec![text("error"), text("empty")]));
    assert_eq!(read("  "), list(vec![text("error"), text("empty")]));
    assert_eq!(read("a b"), list(vec![text("error"), text("extra-input")]));
}

#[test]
fn an_error_is_written_as_line_column_and_reason() {
    let error = |line: usize, column: usize, reason: ErrorReason| SyntaxError {
        location: SourceLocation { line, column },
        reason,
    };
    assert_eq!(error(1, 5, ErrorReason::ErrExtraInput).to_string(), "1:5 ErrExtraInput");
    assert_eq!(error(1, 1, ErrorReason::ErrEmptyInput).to_string(), "1:1 ErrEmptyInput");
    assert_eq!(
        error(120, 4096, ErrorReason::ErrMissingQualifiedRuleBlock).to_string(),
        "120:4096 ErrMissingQualifiedRuleBlock"
    );
    assert_eq!(
        error(0, 10, ErrorReason::ErrInvalidDeclarationSyntax).to_string(),
        "0:10 ErrInvalidDeclarationSyntax"
    );
    assert_eq!(
        error(7, 19, ErrorReason::ErrInvalidBangImportantSyntax).to_string(),
        "7:19 ErrInvalidBangImportantSyntax"
    );
    assert_eq!(
        parse_one_component_value(tokenize("a b")).unwrap_err().to_string(),
        "1:3 ErrExtraInput"
    );
    let every = [
        ErrorReason::ErrEmptyInput,
        ErrorReason::ErrExtraInput,
        ErrorReason::ErrMissingQualifiedRuleBlock,
        ErrorReason::ErrInvalidDeclarationSyntax,
        ErrorReason::ErrInvalidBangImportantSyntax,
    ];
    for reason in every.iter() {
        assert_eq!(error(3, 4, *reason).to_string(), format!("3:4 {:?}", reason));
    }
}
