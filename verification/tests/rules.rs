use std::ops::Range;

use cssparser::ast::{
    AtRule, ComponentValue, Declaration, DeclarationListItem, NumericValue, QualifiedRule, Rule,
    SourceLocation,
};
use cssparser::parser::{Delimiter, Delimiters, Parser, SourcePosition};
use cssparser::rules_and_declarations::{
    parse_important, parse_one_declaration, parse_one_rule, AtRuleParser, AtRuleType,
    DeclarationListParser, DeclarationParser, QualifiedRuleParser, RuleListParser,
};
use cssparser::syntax::{DeclarationTreeParser, RuleTreeParser};
use cssparser::token::Token;
use cssparser::token_list::TokenList;

fn ident(name: &str) -> ComponentValue {
    ComponentValue::Ident(name.to_string())
}

fn at(line: usize, column: usize) -> SourceLocation {
    SourceLocation { line, column }
}

fn span(start: usize, end: usize) -> Range<SourcePosition> {
    SourcePosition(start)..SourcePosition(end)
}

fn rules_of(input: &str, stylesheet: bool) -> Vec<Result<Rule, Range<SourcePosition>>> {
    let list = TokenList::new(input);
    let mut parser = Parser::new(&list);
    let mut rules = if stylesheet {
        RuleListParser::new_for_stylesheet(&mut parser, RuleTreeParser)
    } else {
        RuleListParser::new_for_nested_rule(&mut parser, RuleTreeParser)
    };
    rules.collect()
}

fn declarations_of(input: &str) -> Vec<Result<DeclarationListItem, Range<SourcePosition>>> {
    let list = TokenList::new(input);
    let mut parser = Parser::new(&list);
    let mut declarations = DeclarationListParser::new(&mut parser, DeclarationTreeParser);
    declarations.collect()
}

fn declaration(
    location: SourceLocation,
    name: &str,
    value: Vec<ComponentValue>,
    important: bool,
) -> DeclarationListItem {
    DeclarationListItem::Declaration(Declaration {
        location,
        name: name.to_string(),
        value,
        important,
    })
}

#[test]
fn a_qualified_rule_keeps_its_prelude_and_its_block() {
    assert_eq!(
        rules_of("a { b: c }", false),
        vec![Ok(Rule::QualifiedRule(QualifiedRule {
            location: at(1, 1),
            prelude: vec![ident("a"), ComponentValue::WhiteSpace],
            block: vec![
                (ComponentValue::WhiteSpace, at(1, 4)),
                (ident("b"), at(1, 5)),
                (ComponentValue::Colon, at(1, 6)),
                (ComponentValue::WhiteSpace, at(1, 7)),
                (ident("c"), at(1, 8)),
                (ComponentValue::WhiteSpace, at(1, 9)),
            ],
        }))]
    );
}

#[test]
fn a_declaration_in_a_block_may_be_important() {
    let list = TokenList::new("p{color:red !important}");
    let mut parser = Parser::new(&list);
    assert_eq!(parser.next(), Some(&Token::Ident("p".to_string())));
    assert_eq!(parser.next(), Some(&Token::CurlyBracketBlock));
    let items = parser.parse_nested_block(|block: &mut Parser| -> Result<_, ()> {
        Ok(DeclarationListParser::new(block, DeclarationTreeParser).collect())
    });
    assert_eq!(
        items,
        Ok(vec![Ok(declaration(at(1, 3), "color", vec![ident("red")], true))])
    );
    assert!(parser.is_exhausted());
}

#[test]
fn an_at_rule_may_end_with_a_semicolon() {
    assert_eq!(
        rules_of("@import url(x);", true),
        vec![Ok(Rule::AtRule(AtRule {
            location: at(1, 1),
            name: "import".to_string(),
            prelude: vec![ComponentValue::WhiteSpace, ComponentValue::URL("x".to_string())],
            block: None,
        }))]
    );
}

#[test]
fn a_qualified_rule_without_its_closing_brace_ends_with_the_input() {
    let list = TokenList::new("a {");
    assert_eq!(list.len(), 3);
    let mut parser = Parser::new(&list);
    let mut rules = RuleListParser::new_for_stylesheet(&mut parser, RuleTreeParser);
    assert_eq!(rules.next(), Some(Err(span(0, 3))));
    assert_eq!(rules.next(), None);
    assert_eq!(rules.next(), None);
    assert!(parser.is_exhausted());
    assert_eq!(parser.position(), SourcePosition(3));
}

#[test]
fn the_closing_brace_makes_the_rule_valid() {
    assert_eq!(
        rules_of("a {}", true),
        vec![Ok(Rule::QualifiedRule(QualifiedRule {
            location: at(1, 1),
            prelude: vec![ident("a"), ComponentValue::WhiteSpace],
            block: vec![],
        }))]
    );
    assert_eq!(rules_of("a {", false), vec![Err(span(0, 3))]);
    assert_eq!(rules_of("a { b { c }", true), vec![Err(span(0, 11))]);
    assert_eq!(rules_of("a { ( }", true), vec![Err(span(0, 7))]);
    assert_eq!(rules_of("a {} b {", true).len(), 2);
    assert!(rules_of("a {} b {", true)[0].is_ok());
    assert_eq!(rules_of("a {} b {", true)[1], Err(span(5, 8)));
}

#[test]
fn an_at_rule_with_an_open_block_is_invalid() {
    assert_eq!(rules_of("@foo { bar", true), vec![Err(span(0, 5))]);
    assert_eq!(rules_of("@foo {", true), vec![Err(span(0, 3))]);
    assert_eq!(
        rules_of("@foo { bar }", true),
        vec![Ok(Rule::AtRule(AtRule {
            location: at(1, 1),
            name: "foo".to_string(),
            prelude: vec![ComponentValue::WhiteSpace],
            block: Some(vec![
                (ComponentValue::WhiteSpace, at(1, 7)),
                (ident("bar"), at(1, 8)),
                (ComponentValue::WhiteSpace, at(1, 11)),
            ]),
        }))]
    );
    assert_eq!(rules_of("@foo bar{[(4", true), vec![Err(span(0, 7))]);
    assert_eq!(rules_of("@foo bar{[(4)]", true), vec![Err(span(0, 9))]);
    assert_eq!(rules_of("@foo bar{[(4)]}", true).len(), 1);
    assert!(rules_of("@foo bar{[(4)]}", true)[0].is_ok());
    assert_eq!(
        declarations_of("a:b; @media print{div{"),
        vec![Ok(declaration(at(1, 1), "a", vec![ident("b")], false)), Err(span(5, 11))]
    );
}

#[test]
fn an_at_rule_with_an_open_bracket_in_its_prelude_is_invalid() {
    assert_eq!(rules_of("@foo [ bar", true), vec![Err(span(0, 5))]);
    assert_eq!(rules_of("@foo ( bar; baz {}", true), vec![Err(span(0, 11))]);
    assert_eq!(rules_of("@foo url( bar", true).len(), 1);
    assert!(rules_of("@foo url( bar", true)[0].is_ok());
    assert_eq!(rules_of("@foo f( bar", true), vec![Err(span(0, 5))]);
    assert_eq!(
        rules_of("@foo [ bar ]", true),
        vec![Ok(Rule::AtRule(AtRule {
            location: at(1, 1),
            name: "foo".to_string(),
            prelude: vec![
                ComponentValue::WhiteSpace,
                ComponentValue::SquareBracketBlock(vec![
                    ComponentValue::WhiteSpace,
                    ident("bar"),
                    ComponentValue::WhiteSpace,
                ])
            ],
            block: None,
        }))]
    );
    assert_eq!(rules_of("@foo [ bar ];", true).len(), 1);
    assert!(rules_of("@foo [ bar ];", true)[0].is_ok());
    assert_eq!(declarations_of("@foo [ bar"), vec![Err(span(0, 5))]);
}

#[test]
fn a_declaration_list_goes_on_after_an_invalid_item() {
    let items = declarations_of("color: red; bogus; width: 1px");
    assert_eq!(
        items,
        vec![
            Ok(declaration(at(1, 1), "color", vec![ident("red")], false)),
            Err(span(6, 8)),
            Ok(declaration(
                at(1, 20),
                "width",
                vec![ComponentValue::Dimension(
                    NumericValue { representation: "1".to_string(), int_value: Some(1) },
                    "px".to_string()
                )],
                false
            )),
        ]
    );
}

#[test]
fn declaration_list() {
    assert_eq!(declarations_of(""), vec![]);
    assert_eq!(declarations_of(";; /**/ ; ;"), vec![]);
    assert_eq!(
        declarations_of("a:b; c:d 42!important;\n"),
        vec![
            Ok(declaration(at(1, 1), "a", vec![ident("b")], false)),
            Ok(declaration(
                at(1, 6),
                "c",
                vec![
                    ident("d"),
                    ComponentValue::WhiteSpace,
                    ComponentValue::Number(NumericValue {
                        representation: "42".to_string(),
                        int_value: Some(42)
                    }),
                ],
                true
            )),
        ]
    );
    assert_eq!(
        declarations_of("z;a:b"),
        vec![Err(span(0, 2)), Ok(declaration(at(1, 3), "a", vec![ident("b")], false))]
    );
    assert_eq!(
        declarations_of("z:x!;a:b"),
        vec![Err(span(0, 5)), Ok(declaration(at(1, 6), "a", vec![ident("b")], false))]
    );
    assert_eq!(
        declarations_of("a:b; b:c!IMPORTant /**/ ; x : y ! important z;"),
        vec![
            Ok(declaration(at(1, 1), "a", vec![ident("b")], false)),
            Ok(declaration(at(1, 6), "b", vec![ident("c")], true)),
            Err(span(15, 27)),
        ]
    );
    assert_eq!(
        declarations_of("@import 'foo.css'; a:b; @import 'bar.css'"),
        vec![
            Ok(DeclarationListItem::DeclAtRule(AtRule {
                location: at(1, 1),
                name: "import".to_string(),
                prelude: vec![
                    ComponentValue::WhiteSpace,
                    ComponentValue::String("foo.css".to_string())
                ],
                block: None,
            })),
            Ok(declaration(at(1, 20), "a", vec![ident("b")], false)),
            Ok(DeclarationListItem::DeclAtRule(AtRule {
                location: at(1, 25),
                name: "import".to_string(),
                prelude: vec![
                    ComponentValue::WhiteSpace,
                    ComponentValue::String("bar.css".to_string())
                ],
                block: None,
            })),
        ]
    );
    assert_eq!(
        declarations_of("@media screen { div{;}} a:b;; @media print{div{"),
        vec![
            Ok(DeclarationListItem::DeclAtRule(AtRule {
                location: at(1, 1),
                name: "media".to_string(),
                prelude: vec![
                    ComponentValue::WhiteSpace,
                    ident("screen"),
                    ComponentValue::WhiteSpace
                ],
                block: Some(vec![
                    (ComponentValue::WhiteSpace, at(1, 16)),
                    (ident("div"), at(1, 17)),
                    (
                        ComponentValue::CurlyBracketBlock(vec![(
                            ComponentValue::Semicolon,
                            at(1, 21)
                        )]),
                        at(1, 20)
                    ),
                ]),
            })),
            Ok(declaration(at(1, 25), "a", vec![ident("b")], false)),
            Err(span(18, 24)),
        ]
    );
    assert_eq!(
        declarations_of("{ a:b } c:d"),
        vec![Err(span(0, 11))]
    );
}

#[test]
fn one_declaration() {
    let parse = |input: &str| {
        let list = TokenList::new(input);
        let mut parser = Parser::new(&list);
        parse_one_declaration(&mut parser, &mut DeclarationTreeParser)
    };
    assert_eq!(parse(""), Err(span(0, 0)));
    assert_eq!(parse("  /**/\n"), Err(span(0, 0)));
    assert_eq!(parse(" ;"), Err(span(0, 0)));
    assert_eq!(parse("foo"), Err(span(0, 1)));
    assert_eq!(parse("@foo:"), Err(span(0, 0)));
    assert_eq!(parse("#foo:"), Err(span(0, 0)));
    assert_eq!(parse(".foo:"), Err(span(0, 0)));
    assert_eq!(parse("foo*:"), Err(span(0, 1)));
    assert_eq!(parse("foo.. 9000"), Err(span(0, 1)));
    assert_eq!(parse("foo:"), Ok(declaration(at(1, 1), "foo", vec![], false)));
    assert_eq!(parse("foo :"), Ok(declaration(at(1, 1), "foo", vec![], false)));
    assert_eq!(
        parse("\n/**/ foo: "),
        Ok(declaration(at(2, 6), "foo", vec![], false))
    );
    assert_eq!(
        parse("foo:;"),
        Ok(declaration(at(1, 1), "foo", vec![ComponentValue::Semicolon], false))
    );
    assert_eq!(
        parse(" /**/ foo /**/ :"),
        Ok(declaration(at(1, 7), "foo", vec![], false))
    );
    assert_eq!(
        parse("foo:;bar:;"),
        Ok(declaration(
            at(1, 1),
            "foo",
            vec![
                ComponentValue::Semicolon,
                ident("bar"),
                ComponentValue::Colon,
                ComponentValue::Semicolon
            ],
            false
        ))
    );
    assert_eq!(
        parse("foo: 9000  !Important"),
        Ok(declaration(
            at(1, 1),
            "foo",
            vec![ComponentValue::Number(NumericValue {
                representation: "9000".to_string(),
                int_value: Some(9000)
            })],
            true
        ))
    );
    assert_eq!(
        parse("foo: 9000  ! /**/\t IMPORTant /**/\u{c}"),
        Ok(declaration(
            at(1, 1),
            "foo",
            vec![ComponentValue::Number(NumericValue {
                representation: "9000".to_string(),
                int_value: Some(9000)
            })],
            true
        ))
    );
    assert!(parse("foo: 9000  /* Dotted capital I */!İmportant").is_err());
    assert!(parse("foo: 9000  !important!").is_err());
    assert!(parse("foo: 9000  important").is_ok());
    assert!(parse("foo:important").is_ok());
    assert!(parse("foo: 9000 !").is_err());
    assert!(parse("foo: 9000 ! x").is_err());
}

#[test]
fn rule_list() {
    assert_eq!(rules_of("", false), vec![]);
    assert_eq!(
        rules_of("foo", false),
        vec![Err(span(0, 1))]
    );
    assert_eq!(
        rules_of("foo 4", false),
        vec![Err(span(0, 3))]
    );
    assert_eq!(
        rules_of("@foo", false),
        vec![Ok(Rule::AtRule(AtRule {
            location: at(1, 1),
            name: "foo".to_string(),
            prelude: vec![],
            block: None,
        }))]
    );
    assert_eq!(
        rules_of("@foo bar; \t/* comment */", false),
        vec![Ok(Rule::AtRule(AtRule {
            location: at(1, 1),
            name: "foo".to_string(),
            prelude: vec![ComponentValue::WhiteSpace, ident("bar")],
            block: None,
        }))]
    );
    assert_eq!(rules_of(" /**/ @foo bar{[(4", false), vec![Err(span(3, 10))]);
    assert_eq!(rules_of("@foo { bar", false), vec![Err(span(0, 5))]);
    assert_eq!(rules_of("@foo [ bar", false), vec![Err(span(0, 5))]);
    assert_eq!(
        rules_of(" /**/ div > p { color: #aaa;  } /**/ ", false),
        vec![Ok(Rule::QualifiedRule(QualifiedRule {
            location: at(1, 7),
            prelude: vec![
                ident("div"),
                ComponentValue::WhiteSpace,
                ComponentValue::Delim('>'),
                ComponentValue::WhiteSpace,
                ident("p"),
                ComponentValue::WhiteSpace,
            ],
            block: vec![
                (ComponentValue::WhiteSpace, at(1, 16)),
                (ident("color"), at(1, 17)),
                (ComponentValue::Colon, at(1, 22)),
                (ComponentValue::WhiteSpace, at(1, 23)),
                (ComponentValue::IDHash("aaa".to_string()), at(1, 24)),
                (ComponentValue::Semicolon, at(1, 28)),
                (ComponentValue::WhiteSpace, at(1, 29)),
            ],
        }))]
    );
    assert_eq!(rules_of(" /**/ { color: #aaa  ", false), vec![Err(span(3, 10))]);
    let cdo = rules_of(" /* CDO/CDC are not special */ <!-- --> {", false);
    assert_eq!(cdo, vec![Err(span(3, 8))]);
    assert_eq!(
        rules_of("div { color: #aaa; } p{}", false).len(),
        2
    );
    assert_eq!(rules_of("div {} -->", false).len(), 2);
    assert_eq!(rules_of("{}a", false), vec![
        Ok(Rule::QualifiedRule(QualifiedRule { location: at(1, 1), prelude: vec![], block: vec![] })),
        Err(span(2, 3)),
    ]);
    assert_eq!(rules_of("{}@a", false).len(), 2);
}

#[test]
fn stylesheet() {
    assert_eq!(rules_of("", true), vec![]);
    assert_eq!(rules_of("foo", true), vec![Err(span(0, 1))]);
    assert_eq!(
        rules_of(" /* CDO/CDC are ignored between rules */ <!-- --> {", true),
        vec![Err(span(7, 8))]
    );
    assert_eq!(rules_of(" <!-- --> a<!---->{", true), vec![Err(span(5, 9))]);
    assert_eq!(rules_of("div {} -->", true).len(), 1);
    assert_eq!(rules_of("{}a", true).len(), 2);
    assert_eq!(rules_of("{}@a", true).len(), 2);
}

#[test]
fn one_rule() {
    let parse = |input: &str| {
        let list = TokenList::new(input);
        let mut parser = Parser::new(&list);
        parse_one_rule(&mut parser, &mut RuleTreeParser)
    };
    assert_eq!(parse(""), Err(()));
    assert_eq!(parse("  /**/\n"), Err(()));
    assert_eq!(parse("foo"), Err(()));
    assert_eq!(parse("foo 4"), Err(()));
    assert_eq!(
        parse("@foo"),
        Ok(Rule::AtRule(AtRule {
            location: at(1, 1),
            name: "foo".to_string(),
            prelude: vec![],
            block: None
        }))
    );
    assert_eq!(
        parse("@foo bar; \t/* comment */"),
        Ok(Rule::AtRule(AtRule {
            location: at(1, 1),
            name: "foo".to_string(),
            prelude: vec![ComponentValue::WhiteSpace, ident("bar")],
            block: None
        }))
    );
    assert_eq!(parse(" /**/ @foo bar{[(4"), Err(()));
    assert!(parse(" /**/ div > p { color: #aaa;  } /**/ ").is_ok());
    assert_eq!(parse(" /**/ { color: #aaa  "), Err(()));
    assert_eq!(parse(" /* CDO/CDC are not special */ <!-- --> {"), Err(()));
    assert_eq!(parse("div { color: #aaa; } p{}"), Err(()));
    assert_eq!(parse("div {} -->"), Err(()));
    assert_eq!(parse("{}a"), Err(()));
    assert_eq!(parse("{}@a"), Err(()));
}

#[test]
fn important_is_read_without_regard_to_case() {
    let parse = |input: &str| {
        let list = TokenList::new(input);
        let mut parser = Parser::new(&list);
        let r = parse_important(&mut parser);
        (r, parser.position())
    };
    assert_eq!(parse("!important"), (Ok(()), SourcePosition(2)));
    assert_eq!(parse(" ! /**/ IMPORTANT x"), (Ok(()), SourcePosition(6)));
    assert_eq!(parse("important"), (Err(()), SourcePosition(0)));
    assert_eq!(parse(" important"), (Err(()), SourcePosition(0)));
    assert_eq!(parse("! imp"), (Err(()), SourcePosition(1)));
    assert_eq!(parse("!"), (Err(()), SourcePosition(1)));
    assert_eq!(parse("!\u{130}mportant"), (Err(()), SourcePosition(1)));
}

#[test]
fn try_parse_goes_back_after_a_failure() {
    let list = TokenList::new("! x y");
    let mut parser = Parser::new(&list);
    assert_eq!(parser.try_parse(parse_important), Err(()));
    assert_eq!(parser.position(), SourcePosition(0));
    assert_eq!(parser.try_parse(|p: &mut Parser| p.expect_delim('!')), Ok(()));
    assert_eq!(parser.position(), SourcePosition(1));
    assert_eq!(
        parser.try_parse(|p: &mut Parser| p.expect_ident().map(|name| name.clone())),
        Ok("x".to_string())
    );
    assert_eq!(parser.position(), SourcePosition(3));
}

#[test]
fn parse_until_before_stops_at_the_delimiter_whatever_the_closure_does() {
    let list = TokenList::new("a b { c ; d } ; e , f");
    let semicolon = Delimiters::of(Delimiter::Semicolon);
    let comma = Delimiters::of(Delimiter::Comma);

    let mut parser = Parser::new(&list);
    let r = parser.parse_until_before(semicolon, |p: &mut Parser| -> Result<(), ()> {
        let _ = p.next();
        Err(())
    });
    assert_eq!(r, Err(()));
    assert_eq!(parser.next_including_whitespace_and_comments(), Some(&Token::Semicolon));

    let mut parser = Parser::new(&list);
    let r = parser.parse_until_before(semicolon, |p: &mut Parser| -> Result<usize, ()> {
        let mut count = 0;
        while p.next().is_some() {
            count += 1;
        }
        Ok(count)
    });
    assert_eq!(r, Ok(3));
    assert_eq!(parser.next_including_whitespace_and_comments(), Some(&Token::Semicolon));

    let mut parser = Parser::new(&list);
    let r = parser.parse_until_after(semicolon.union(comma), |_: &mut Parser| -> Result<(), ()> {
        Ok(())
    });
    assert_eq!(r, Ok(()));
    assert_eq!(parser.next(), Some(&Token::Ident("e".to_string())));
    let r = parser.parse_until_before(semicolon, |inner: &mut Parser| {
        inner.parse_until_after(comma, |p: &mut Parser| -> Result<bool, ()> {
            Ok(p.is_exhausted())
        })
    });
    assert_eq!(r, Ok(true));
    assert!(parser.is_exhausted());
}

#[test]
fn parse_entirely_refuses_what_is_left() {
    let list = TokenList::new("a b /**/ ");
    let mut parser = Parser::new(&list);
    assert_eq!(
        parser.parse_entirely(|p: &mut Parser| p.expect_ident().map(|name| name.clone())),
        Err(())
    );
    let mut parser = Parser::new(&list);
    assert_eq!(
        parser.parse_entirely(|p: &mut Parser| {
            p.expect_ident()?;
            p.expect_ident().map(|name| name.clone())
        }),
        Ok("b".to_string())
    );
}

#[test]
fn an_at_rule_follows_the_kind_that_its_prelude_gives() {
    struct Kinds;
    impl QualifiedRuleParser for Kinds {
        type Prelude = ();
        type QualifiedRule = &'static str;
    }
    impl AtRuleParser for Kinds {
        type Prelude = ();
        type AtRule = &'static str;
        fn parse_prelude(
            &self,
            name: &str,
            _input: &mut Parser,
        ) -> Result<AtRuleType<(), &'static str>, ()> {
            match name {
                "without" => Ok(AtRuleType::WithoutBlock("without")),
                "with" => Ok(AtRuleType::WithBlock(())),
                "optional" => Ok(AtRuleType::OptionalBlock(())),
                _ => Err(()),
            }
        }
        fn parse_block(&self, _prelude: (), _input: &mut Parser) -> Result<&'static str, ()> {
            Ok("block")
        }
        fn rule_without_block(&self, _prelude: ()) -> &'static str {
            "no block"
        }
    }
    let parse = |input: &str| {
        let list = TokenList::new(input);
        let mut parser = Parser::new(&list);
        RuleListParser::new_for_nested_rule(&mut parser, Kinds).collect()
    };
    assert_eq!(parse("@without;"), vec![Ok("without")]);
    assert_eq!(parse("@without"), vec![Ok("without")]);
    assert_eq!(parse("@without {}"), vec![Err(span(0, 4))]);
    assert_eq!(parse("@with {}"), vec![Ok("block")]);
    assert_eq!(parse("@with;"), vec![Err(span(0, 2))]);
    assert_eq!(parse("@with"), vec![Err(span(0, 1))]);
    assert_eq!(parse("@optional {}"), vec![Ok("block")]);
    assert_eq!(parse("@optional;"), vec![Ok("no block")]);
    assert_eq!(parse("@optional"), vec![Ok("no block")]);
    assert_eq!(parse("@other x {} @with{}"), vec![Err(span(0, 4)), Ok("block")]);
    assert_eq!(parse("@other x; @with{}"), vec![Err(span(0, 3)), Ok("block")]);
    assert_eq!(parse("a{} b"), vec![Err(span(0, 3)), Err(span(4, 5))]);
    assert_eq!(parse("@with {"), vec![Err(span(0, 3))]);
    assert_eq!(parse("@with { x"), vec![Err(span(0, 5))]);
    assert_eq!(parse("@optional {"), vec![Err(span(0, 3))]);
    assert_eq!(parse("@optional ("), vec![Err(span(0, 3))]);
    assert_eq!(parse("@optional ()"), vec![Ok("no block")]);
    assert_eq!(parse("@without ["), vec![Err(span(0, 3))]);
    assert_eq!(parse("@without []"), vec![Ok("without")]);
    assert_eq!(parse("@without {"), vec![Err(span(0, 3))]);
    assert_eq!(parse("@other {"), vec![Err(span(0, 2))]);
    assert_eq!(parse("@with {} @with {"), vec![Ok("block"), Err(span(5, 8))]);
}

#[test]
fn a_parser_that_keeps_the_defaults_refuses_every_at_rule() {
    struct Selectors;
    impl QualifiedRuleParser for Selectors {
        type Prelude = usize;
        type QualifiedRule = (usize, usize);
        fn parse_prelude(&self, input: &mut Parser) -> Result<usize, ()> {
            let mut count = 0;
            while let Some(token) = input.next() {
                if *token == Token::Delim('!') {
                    return Err(());
                }
                count += 1;
            }
            Ok(count)
        }
        fn parse_block(&self, prelude: usize, input: &mut Parser) -> Result<(usize, usize), ()> {
            let mut count = 0;
            while input.next().is_some() {
                count += 1;
            }
            Ok((prelude, count))
        }
    }
    impl AtRuleParser for Selectors {
        type Prelude = ();
        type AtRule = (usize, usize);
        fn rule_without_block(&self, _prelude: ()) -> (usize, usize) {
            (0, 0)
        }
    }
    let parse = |input: &str| {
        let list = TokenList::new(input);
        let mut parser = Parser::new(&list);
        RuleListParser::new_for_stylesheet(&mut parser, Selectors).collect()
    };
    assert_eq!(parse("@bad; a{}"), vec![Err(span(0, 1)), Ok((1, 0))]);
    assert_eq!(parse("@bad x y {z} a b{c d e}"), vec![Err(span(0, 6)), Ok((2, 3))]);
    assert_eq!(parse("a{b}c{d}"), vec![Ok((1, 1)), Ok((1, 1))]);
    assert_eq!(parse("a!{b}c{d}"), vec![Err(span(0, 5)), Ok((1, 1))]);
    assert_eq!(parse("a{b}c!{d}"), vec![Ok((1, 1)), Err(span(4, 9))]);
    assert_eq!(parse("a{b}c{d"), vec![Ok((1, 1)), Err(span(4, 7))]);
}

#[test]
fn a_qualified_rule_parser_that_keeps_the_defaults_refuses_every_rule() {
    struct Nothing;
    impl QualifiedRuleParser for Nothing {
        type Prelude = ();
        type QualifiedRule = ();
    }
    impl AtRuleParser for Nothing {
        type Prelude = ();
        type AtRule = ();
        fn rule_without_block(&self, _prelude: ()) {}
    }
    let parse = |input: &str| {
        let list = TokenList::new(input);
        let mut parser = Parser::new(&list);
        RuleListParser::new_for_stylesheet(&mut parser, Nothing).collect()
    };
    assert_eq!(parse("a {}"), vec![Err(span(0, 4))]);
    assert_eq!(parse("a {} @b; c{}"), vec![Err(span(0, 4)), Err(span(5, 6)), Err(span(8, 11))]);
}

#[test]
fn a_declaration_value_is_not_read_past_its_semicolon() {
    struct Count;
    impl DeclarationParser for Count {
        type Declaration = usize;
        fn parse_value(&self, _name: &str, input: &mut Parser) -> Result<usize, ()> {
            let mut count = 0;
            while input.next().is_some() {
                count += 1;
            }
            Ok(count)
        }
    }
    impl AtRuleParser for Count {
        type Prelude = ();
        type AtRule = usize;
        fn rule_without_block(&self, _prelude: ()) -> usize {
            0
        }
    }
    let list = TokenList::new("a: 1 2 {3;4} 5; b: 6");
    let mut parser = Parser::new(&list);
    let counts = DeclarationListParser::new(&mut parser, Count).collect();
    assert_eq!(counts, vec![Ok(4), Ok(1)]);
}

#[test]
fn a_list_has_no_more_items_than_tokens() {
    let inputs = [
        "",
        ";;;;",
        "a:b;c:d;e:f",
        "a;b;c;d;e;f;g",
        "@a;@b;@c{}@d{}",
        "{}{}{}{}",
        "a{}b{}c{}d",
        "! ! ! ; , , , { } } } ) ] (",
        "<!-- --> <!-- a {} --> b {} -->",
    ];
    for input in inputs.iter() {
        let list = TokenList::new(input);
        assert!(declarations_of(input).len() <= list.len(), "{:?}", input);
        assert!(rules_of(input, true).len() <= list.len(), "{:?}", input);
        assert!(rules_of(input, false).len() <= list.len(), "{:?}", input);
    }
    assert_eq!(declarations_of("a;b;c;d;e;f;g").len(), 7);
    assert_eq!(rules_of("{}{}{}{}", false).len(), 4);
}
