use cssparser::ast::{
    ComponentValue, ErrorReason, MoveSkipWhitespaceIterable, Node, NumericValue,
    SkipWhitespaceIterable, SourceLocation, SyntaxError,
};
use cssparser::syntax::{parse_one_component_value, tokenize};

fn values(input: &str) -> Vec<ComponentValue> {
    tokenize(input).into_iter().map(|(value, _)| value).collect()
}

fn ident(name: &str) -> ComponentValue {
    ComponentValue::Ident(name.to_string())
}

fn number(representation: &str, int_value: Option<i64>) -> NumericValue {
    NumericValue { representation: representation.to_string(), int_value }
}

fn at(line: usize, column: usize) -> SourceLocation {
    SourceLocation { line, column }
}

#[test]
fn component_value_list() {
    assert_eq!(values(""), vec![]);
    assert_eq!(
        values("/*/*///** /* **/*//* "),
        vec![ComponentValue::Delim('/'), ComponentValue::Delim('*'), ComponentValue::Delim('/')]
    );
    assert_eq!(values("red"), vec![ident("red")]);
    assert_eq!(
        values("  \t\t\r\n\nRed "),
        vec![ComponentValue::WhiteSpace, ident("Red"), ComponentValue::WhiteSpace]
    );
    assert_eq!(
        values("red/* CDC */-->"),
        vec![ident("red"), ComponentValue::CDC]
    );
    assert_eq!(
        values("red-->/* Not CDC */"),
        vec![ident("red--"), ComponentValue::Delim('>')]
    );
    assert_eq!(
        values("\\- red0 -red --red -\\-red\\ blue 0red -0red \0red _Red .red rêd r\\êd \u{7f}\u{80}\u{81}"),
        vec![
            ident("-"),
            ComponentValue::WhiteSpace,
            ident("red0"),
            ComponentValue::WhiteSpace,
            ident("-red"),
            ComponentValue::WhiteSpace,
            ident("--red"),
            ComponentValue::WhiteSpace,
            ident("--red blue"),
            ComponentValue::WhiteSpace,
            ComponentValue::Dimension(number("0", Some(0)), "red".to_string()),
            ComponentValue::WhiteSpace,
            ComponentValue::Dimension(number("-0", Some(0)), "red".to_string()),
            ComponentValue::WhiteSpace,
            ident("\u{fffd}red"),
            ComponentValue::WhiteSpace,
            ident("_Red"),
            ComponentValue::WhiteSpace,
            ComponentValue::Delim('.'),
            ident("red"),
            ComponentValue::WhiteSpace,
            ident("rêd"),
            ComponentValue::WhiteSpace,
            ident("rêd"),
            ComponentValue::WhiteSpace,
            ComponentValue::Delim('\u{7f}'),
            ident("\u{80}\u{81}"),
        ]
    );
    assert_eq!(
        values("\\30red \\00030 red \\30\r\nred \\0000000red \\1100000red \\red \\r ed \\.red \\ red \\\nred \\376\\37 6\\000376\\0000376\\"),
        vec![
            ident("0red"),
            ComponentValue::WhiteSpace,
            ident("0red"),
            ComponentValue::WhiteSpace,
            ident("0red"),
            ComponentValue::WhiteSpace,
            ident("\u{fffd}0red"),
            ComponentValue::WhiteSpace,
            ident("\u{fffd}0red"),
            ComponentValue::WhiteSpace,
            ident("red"),
            ComponentValue::WhiteSpace,
            ident("r"),
            ComponentValue::WhiteSpace,
            ident("ed"),
            ComponentValue::WhiteSpace,
            ident(".red"),
            ComponentValue::WhiteSpace,
            ident(" red"),
            ComponentValue::WhiteSpace,
            ComponentValue::Delim('\\'),
            ComponentValue::WhiteSpace,
            ident("red"),
            ComponentValue::WhiteSpace,
            ident("Ͷ76Ͷ76\u{fffd}"),
        ]
    );
    assert_eq!(
        values("rgba0() -rgba() --rgba() -\\-rgba() 0rgba() -0rgba() _rgba() .rgba() rgbâ() \\30rgba() rgba () @rgba() #rgba()"),
        vec![
            ComponentValue::Function("rgba0".to_string(), vec![]),
            ComponentValue::WhiteSpace,
            ComponentValue::Function("-rgba".to_string(), vec![]),
            ComponentValue::WhiteSpace,
            ComponentValue::Function("--rgba".to_string(), vec![]),
            ComponentValue::WhiteSpace,
            ComponentValue::Function("--rgba".to_string(), vec![]),
            ComponentValue::WhiteSpace,
            ComponentValue::Dimension(number("0", Some(0)), "rgba".to_string()),
            ComponentValue::ParenthesisBlock(vec![]),
            ComponentValue::WhiteSpace,
            ComponentValue::Dimension(number("-0", Some(0)), "rgba".to_string()),
            ComponentValue::ParenthesisBlock(vec![]),
            ComponentValue::WhiteSpace,
            ComponentValue::Function("_rgba".to_string(), vec![]),
            ComponentValue::WhiteSpace,
            ComponentValue::Delim('.'),
            ComponentValue::Function("rgba".to_string(), vec![]),
            ComponentValue::WhiteSpace,
            ComponentValue::Function("rgbâ".to_string(), vec![]),
            ComponentValue::WhiteSpace,
            ComponentValue::Function("0rgba".to_string(), vec![]),
            ComponentValue::WhiteSpace,
            ident("rgba"),
            ComponentValue::WhiteSpace,
            ComponentValue::ParenthesisBlock(vec![]),
            ComponentValue::WhiteSpace,
            ComponentValue::AtKeyword("rgba".to_string()),
            ComponentValue::ParenthesisBlock(vec![]),
            ComponentValue::WhiteSpace,
            ComponentValue::IDHash("rgba".to_string()),
            ComponentValue::ParenthesisBlock(vec![]),
        ]
    );
    assert_eq!(
        values("@media0 @-Media @--media @0media @-0media @_media @.media @medİa @\\30 media\\"),
        vec![
            ComponentValue::AtKeyword("media0".to_string()),
            ComponentValue::WhiteSpace,
            ComponentValue::AtKeyword("-Media".to_string()),
            ComponentValue::WhiteSpace,
            ComponentValue::AtKeyword("--media".to_string()),
            ComponentValue::WhiteSpace,
            ComponentValue::Delim('@'),
            ComponentValue::Dimension(number("0", Some(0)), "media".to_string()),
            ComponentValue::WhiteSpace,
            ComponentValue::Delim('@'),
            ComponentValue::Dimension(number("-0", Some(0)), "media".to_string()),
            ComponentValue::WhiteSpace,
            ComponentValue::AtKeyword("_media".to_string()),
            ComponentValue::WhiteSpace,
            ComponentValue::Delim('@'),
            ComponentValue::Delim('.'),
            ident("media"),
            ComponentValue::WhiteSpace,
            ComponentValue::AtKeyword("medİa".to_string()),
            ComponentValue::WhiteSpace,
            ComponentValue::AtKeyword("0media\u{fffd}".to_string()),
        ]
    );
    assert_eq!(
        values("#red0 #-Red #--red #-\\-red #0red #-0red #_Red #.red #rêd #êrd #\\.red\\"),
        vec![
            ComponentValue::IDHash("red0".to_string()),
            ComponentValue::WhiteSpace,
            ComponentValue::IDHash("-Red".to_string()),
            ComponentValue::WhiteSpace,
            ComponentValue::IDHash("--red".to_string()),
            ComponentValue::WhiteSpace,
            ComponentValue::IDHash("--red".to_string()),
            ComponentValue::WhiteSpace,
            ComponentValue::Hash("0red".to_string()),
            ComponentValue::WhiteSpace,
            ComponentValue::Hash("-0red".to_string()),
            ComponentValue::WhiteSpace,
            ComponentValue::IDHash("_Red".to_string()),
            ComponentValue::WhiteSpace,
            ComponentValue::Delim('#'),
            ComponentValue::Delim('.'),
            ident("red"),
            ComponentValue::WhiteSpace,
            ComponentValue::IDHash("rêd".to_string()),
            ComponentValue::WhiteSpace,
            ComponentValue::IDHash("êrd".to_string()),
            ComponentValue::WhiteSpace,
            ComponentValue::IDHash(".red\u{fffd}".to_string()),
        ]
    );
    assert_eq!(
        values("p[example=\"\\\nfoo(int x) {\\\n   this.x = x;\\\n}\\\n\"]"),
        vec![
            ident("p"),
            ComponentValue::SquareBracketBlock(vec![
                ident("example"),
                ComponentValue::Delim('='),
                ComponentValue::String("foo(int x) {   this.x = x;}".to_string()),
            ]),
        ]
    );
    assert_eq!(
        values("'' 'Lorem \"îpsum\"' 'a\\\nb' 'a\nb 'eof"),
        vec![
            ComponentValue::String("".to_string()),
            ComponentValue::WhiteSpace,
            ComponentValue::String("Lorem \"îpsum\"".to_string()),
            ComponentValue::WhiteSpace,
            ComponentValue::String("ab".to_string()),
            ComponentValue::WhiteSpace,
            ComponentValue::BadString,
            ComponentValue::WhiteSpace,
            ident("b"),
            ComponentValue::WhiteSpace,
            ComponentValue::String("eof".to_string()),
        ]
    );
    assert_eq!(
        values("\"\" \"Lorem 'îpsum'\" \"a\\\nb\" \"a\nb \"eof"),
        vec![
            ComponentValue::String("".to_string()),
            ComponentValue::WhiteSpace,
            ComponentValue::String("Lorem 'îpsum'".to_string()),
            ComponentValue::WhiteSpace,
            ComponentValue::String("ab".to_string()),
            ComponentValue::WhiteSpace,
            ComponentValue::BadString,
            ComponentValue::WhiteSpace,
            ident("b"),
            ComponentValue::WhiteSpace,
            ComponentValue::String("eof".to_string()),
        ]
    );
    assert_eq!(
        values("\"Lo\\rem \\130 ps\\u m\" '\\376\\37 6\\000376\\0000376\\"),
        vec![
            ComponentValue::String("Lorem İpsu m".to_string()),
            ComponentValue::WhiteSpace,
            ComponentValue::String("Ͷ76Ͷ76".to_string()),
        ]
    );
    assert_eq!(
        values("url( '') url('Lorem \"îpsum\"'\n) url('a\\\nb' ) url('a\nb) url('eof"),
        vec![
            ComponentValue::Function(
                "url".to_string(),
                vec![ComponentValue::WhiteSpace, ComponentValue::String("".to_string())]
            ),
            ComponentValue::WhiteSpace,
            ComponentValue::Function(
                "url".to_string(),
                vec![
                    ComponentValue::String("Lorem \"îpsum\"".to_string()),
                    ComponentValue::WhiteSpace
                ]
            ),
            ComponentValue::WhiteSpace,
            ComponentValue::Function(
                "url".to_string(),
                vec![ComponentValue::String("ab".to_string()), ComponentValue::WhiteSpace]
            ),
            ComponentValue::WhiteSpace,
            ComponentValue::Function(
                "url".to_string(),
                vec![
                    ComponentValue::BadString,
                    ComponentValue::WhiteSpace,
                    ident("b"),
                ]
            ),
            ComponentValue::WhiteSpace,
            ComponentValue::Function(
                "url".to_string(),
                vec![ComponentValue::String("eof".to_string())]
            ),
        ]
    );
    assert_eq!(
        values("url( ) url(\ta) url(b\n) url( c\t) url(\t d d) URL(e\\)\\ f) url(g"),
        vec![
            ComponentValue::URL("".to_string()),
            ComponentValue::WhiteSpace,
            ComponentValue::URL("a".to_string()),
            ComponentValue::WhiteSpace,
            ComponentValue::URL("b".to_string()),
            ComponentValue::WhiteSpace,
            ComponentValue::URL("c".to_string()),
            ComponentValue::WhiteSpace,
            ComponentValue::BadURL,
            ComponentValue::WhiteSpace,
            ComponentValue::URL("e) f".to_string()),
            ComponentValue::WhiteSpace,
            ComponentValue::URL("g".to_string()),
        ]
    );
    assert_eq!(
        values("url(\u{1}) url(a\"b) url(a'b) url(a(b) url(a\\\nb) url(x y) z"),
        vec![
            ComponentValue::BadURL,
            ComponentValue::WhiteSpace,
            ComponentValue::BadURL,
            ComponentValue::WhiteSpace,
            ComponentValue::BadURL,
            ComponentValue::WhiteSpace,
            ComponentValue::BadURL,
            ComponentValue::WhiteSpace,
            ComponentValue::BadURL,
            ComponentValue::WhiteSpace,
            ComponentValue::BadURL,
            ComponentValue::WhiteSpace,
            ident("z"),
        ]
    );
    assert_eq!(
        values("12 +34 -45 .67 +.89 -.01 2.3 +45.0 -0.67"),
        vec![
            ComponentValue::Number(number("12", Some(12))),
            ComponentValue::WhiteSpace,
            ComponentValue::Number(number("+34", Some(34))),
            ComponentValue::WhiteSpace,
            ComponentValue::Number(number("-45", Some(-45))),
            ComponentValue::WhiteSpace,
            ComponentValue::Number(number(".67", None)),
            ComponentValue::WhiteSpace,
            ComponentValue::Number(number("+.89", None)),
            ComponentValue::WhiteSpace,
            ComponentValue::Number(number("-.01", None)),
            ComponentValue::WhiteSpace,
            ComponentValue::Number(number("2.3", None)),
            ComponentValue::WhiteSpace,
            ComponentValue::Number(number("+45.0", None)),
            ComponentValue::WhiteSpace,
            ComponentValue::Number(number("-0.67", None)),
        ]
    );
    assert_eq!(
        values("12e2 +34e+1 -45E-0 .68e+3 3. /* Decimal point must have following digits */ 3e /* Exponent must have following digits */ 3e+ 3e-3.5"),
        vec![
            ComponentValue::Number(number("12e2", None)),
            ComponentValue::WhiteSpace,
            ComponentValue::Number(number("+34e+1", None)),
            ComponentValue::WhiteSpace,
            ComponentValue::Number(number("-45E-0", None)),
            ComponentValue::WhiteSpace,
            ComponentValue::Number(number(".68e+3", None)),
            ComponentValue::WhiteSpace,
            ComponentValue::Number(number("3", Some(3))),
            ComponentValue::Delim('.'),
            ComponentValue::WhiteSpace,
            ComponentValue::WhiteSpace,
            ComponentValue::Dimension(number("3", Some(3)), "e".to_string()),
            ComponentValue::WhiteSpace,
            ComponentValue::WhiteSpace,
            ComponentValue::Dimension(number("3", Some(3)), "e".to_string()),
            ComponentValue::Delim('+'),
            ComponentValue::WhiteSpace,
            ComponentValue::Number(number("3e-3", None)),
            ComponentValue::Number(number(".5", None)),
        ]
    );
    assert_eq!(
        values("12% +34% -45% 12.5%"),
        vec![
            ComponentValue::Percentage(number("12", Some(12))),
            ComponentValue::WhiteSpace,
            ComponentValue::Percentage(number("+34", Some(34))),
            ComponentValue::WhiteSpace,
            ComponentValue::Percentage(number("-45", Some(-45))),
            ComponentValue::WhiteSpace,
            ComponentValue::Percentage(number("12.5", None)),
        ]
    );
    assert_eq!(
        values("12px +34px -45px 12e2px 1e-3em 12--x 12\\65m"),
        vec![
            ComponentValue::Dimension(number("12", Some(12)), "px".to_string()),
            ComponentValue::WhiteSpace,
            ComponentValue::Dimension(number("+34", Some(34)), "px".to_string()),
            ComponentValue::WhiteSpace,
            ComponentValue::Dimension(number("-45", Some(-45)), "px".to_string()),
            ComponentValue::WhiteSpace,
            ComponentValue::Dimension(number("12e2", None), "px".to_string()),
            ComponentValue::WhiteSpace,
            ComponentValue::Dimension(number("1e-3", None), "em".to_string()),
            ComponentValue::WhiteSpace,
            ComponentValue::Dimension(number("12", Some(12)), "--x".to_string()),
            ComponentValue::WhiteSpace,
            ComponentValue::Dimension(number("12", Some(12)), "em".to_string()),
        ]
    );
    assert_eq!(
        values("u+1 U+10 U+100 U+1000 U+10000 U+100000 U+1000000"),
        vec![
            ComponentValue::UnicodeRange(1, 1),
            ComponentValue::WhiteSpace,
            ComponentValue::UnicodeRange(0x10, 0x10),
            ComponentValue::WhiteSpace,
            ComponentValue::UnicodeRange(0x100, 0x100),
            ComponentValue::WhiteSpace,
            ComponentValue::UnicodeRange(0x1000, 0x1000),
            ComponentValue::WhiteSpace,
            ComponentValue::UnicodeRange(0x10000, 0x10000),
            ComponentValue::WhiteSpace,
            ComponentValue::UnicodeRange(0x100000, 0x100000),
            ComponentValue::WhiteSpace,
            ComponentValue::UnicodeRange(0x100000, 0x100000),
            ComponentValue::Number(number("0", Some(0))),
        ]
    );
    assert_eq!(
        values("u+? u+1? U+10? U+1?? U+???? u+0-1 U+1-0 u+ab-cd u+1-FFFFFF"),
        vec![
            ComponentValue::UnicodeRange(0, 0xf),
            ComponentValue::WhiteSpace,
            ComponentValue::UnicodeRange(0x10, 0x1f),
            ComponentValue::WhiteSpace,
            ComponentValue::UnicodeRange(0x100, 0x10f),
            ComponentValue::WhiteSpace,
            ComponentValue::UnicodeRange(0x100, 0x1ff),
            ComponentValue::WhiteSpace,
            ComponentValue::UnicodeRange(0, 0xffff),
            ComponentValue::WhiteSpace,
            ComponentValue::UnicodeRange(0, 1),
            ComponentValue::WhiteSpace,
            ComponentValue::UnicodeRange(0, 0),
            ComponentValue::WhiteSpace,
            ComponentValue::UnicodeRange(0xab, 0xcd),
            ComponentValue::WhiteSpace,
            ComponentValue::UnicodeRange(1, 0x10ffff),
        ]
    );
    assert_eq!(
        values("~=|=^=$=*=||<!------> |/**/| ~/**/="),
        vec![
            ComponentValue::IncludeMatch,
            ComponentValue::DashMatch,
            ComponentValue::PrefixMatch,
            ComponentValue::SuffixMatch,
            ComponentValue::SubstringMatch,
            ComponentValue::Column,
            ComponentValue::CDO,
            ident("----"),
            ComponentValue::Delim('>'),
            ComponentValue::WhiteSpace,
            ComponentValue::Delim('|'),
            ComponentValue::Delim('|'),
            ComponentValue::WhiteSpace,
            ComponentValue::Delim('~'),
            ComponentValue::Delim('='),
        ]
    );
    assert_eq!(
        values("a:not([href^=http\\:],  [href ^=\t'https\\:'\n]) { color: rgba(0%, 100%, 50%); }"),
        vec![
            ident("a"),
            ComponentValue::Colon,
            ComponentValue::Function(
                "not".to_string(),
                vec![
                    ComponentValue::SquareBracketBlock(vec![
                        ident("href"),
                        ComponentValue::PrefixMatch,
                        ident("http:"),
                    ]),
                    ComponentValue::Comma,
                    ComponentValue::WhiteSpace,
                    ComponentValue::SquareBracketBlock(vec![
                        ident("href"),
                        ComponentValue::WhiteSpace,
                        ComponentValue::PrefixMatch,
                        ComponentValue::WhiteSpace,
                        ComponentValue::String("https:".to_string()),
                        ComponentValue::WhiteSpace,
                    ]),
                ]
            ),
            ComponentValue::WhiteSpace,
            ComponentValue::CurlyBracketBlock(vec![
                (ComponentValue::WhiteSpace, at(2, 5)),
                (ident("color"), at(2, 6)),
                (ComponentValue::Colon, at(2, 11)),
                (ComponentValue::WhiteSpace, at(2, 12)),
                (
                    ComponentValue::Function(
                        "rgba".to_string(),
                        vec![
                            ComponentValue::Percentage(number("0", Some(0))),
                            ComponentValue::Comma,
                            ComponentValue::WhiteSpace,
                            ComponentValue::Percentage(number("100", Some(100))),
                            ComponentValue::Comma,
                            ComponentValue::WhiteSpace,
                            ComponentValue::Percentage(number("50", Some(50))),
                        ]
                    ),
                    at(2, 13)
                ),
                (ComponentValue::Semicolon, at(2, 32)),
                (ComponentValue::WhiteSpace, at(2, 33)),
            ]),
        ]
    );
    assert_eq!(
        values("[()]{}  ) ] }"),
        vec![
            ComponentValue::SquareBracketBlock(vec![ComponentValue::ParenthesisBlock(vec![])]),
            ComponentValue::CurlyBracketBlock(vec![]),
            ComponentValue::WhiteSpace,
            ComponentValue::CloseParenthesis,
            ComponentValue::WhiteSpace,
            ComponentValue::CloseSquareBracket,
            ComponentValue::WhiteSpace,
            ComponentValue::CloseCurlyBracket,
        ]
    );
    assert_eq!(
        values("( ] ) [ { ( }"),
        vec![
            ComponentValue::ParenthesisBlock(vec![
                ComponentValue::WhiteSpace,
                ComponentValue::CloseSquareBracket,
                ComponentValue::WhiteSpace,
            ]),
            ComponentValue::WhiteSpace,
            ComponentValue::SquareBracketBlock(vec![
                ComponentValue::WhiteSpace,
                ComponentValue::CurlyBracketBlock(vec![
                    (ComponentValue::WhiteSpace, at(1, 10)),
                    (
                        ComponentValue::ParenthesisBlock(vec![
                            ComponentValue::WhiteSpace,
                            ComponentValue::CloseCurlyBracket,
                        ]),
                        at(1, 11)
                    ),
                ]),
            ]),
        ]
    );
}

#[test]
fn integers_beyond_32_bits_have_no_integer_value() {
    assert_eq!(
        values("2147483647 2147483648 -2147483648 -2147483649 99999999999999999999999"),
        vec![
            ComponentValue::Number(number("2147483647", Some(2147483647))),
            ComponentValue::WhiteSpace,
            ComponentValue::Number(number("2147483648", None)),
            ComponentValue::WhiteSpace,
            ComponentValue::Number(number("-2147483648", Some(-2147483648))),
            ComponentValue::WhiteSpace,
            ComponentValue::Number(number("-2147483649", None)),
            ComponentValue::WhiteSpace,
            ComponentValue::Number(number("99999999999999999999999", None)),
        ]
    );
}

#[test]
fn nodes_carry_line_and_column() {
    let nodes: Vec<Node> = tokenize("a\n  b\r\n\tc\u{c}d");
    let locations: Vec<SourceLocation> = nodes.iter().map(|(_, location)| *location).collect();
    assert_eq!(
        locations,
        vec![at(1, 1), at(1, 2), at(2, 3), at(2, 4), at(3, 2), at(3, 3), at(4, 1)]
    );
}

#[test]
fn one_component_value() {
    assert_eq!(
        parse_one_component_value(tokenize("")),
        Err(SyntaxError { location: at(1, 1), reason: ErrorReason::ErrEmptyInput })
    );
    assert_eq!(
        parse_one_component_value(tokenize(" ")),
        Err(SyntaxError { location: at(1, 1), reason: ErrorReason::ErrEmptyInput })
    );
    assert_eq!(parse_one_component_value(tokenize("foo")), Ok(ident("foo")));
    assert_eq!(parse_one_component_value(tokenize("  foo  ")), Ok(ident("foo")));
    assert_eq!(
        parse_one_component_value(tokenize(" foo bar")),
        Err(SyntaxError { location: at(1, 6), reason: ErrorReason::ErrExtraInput })
    );
    assert_eq!(
        parse_one_component_value(tokenize(" foo /**/ bar")),
        Err(SyntaxError { location: at(1, 11), reason: ErrorReason::ErrExtraInput })
    );
    assert_eq!(
        parse_one_component_value(tokenize("(a b)")),
        Ok(ComponentValue::ParenthesisBlock(vec![
            ident("a"),
            ComponentValue::WhiteSpace,
            ident("b")
        ]))
    );
}

#[test]
fn skipping_whitespace_by_reference() {
    let list = values(" a  b ");
    let mut iter = list.as_slice().skip_whitespace();
    assert_eq!(iter.next(), Some(&ident("a")));
    assert_eq!(iter.next_including_whitespace(), Some(&ComponentValue::WhiteSpace));
    let mut copy = iter.clone();
    assert_eq!(iter.next(), Some(&ident("b")));
    assert_eq!(iter.next(), None);
    assert_eq!(iter.next_including_whitespace(), None);
    assert_eq!(copy.next(), Some(&ident("b")));
}

#[test]
fn skipping_whitespace_by_value() {
    let mut iter = values(" a  b ").move_skip_whitespace();
    assert_eq!(iter.next(), Some(ident("a")));
    assert_eq!(iter.next(), Some(ident("b")));
    assert_eq!(iter.next(), None);
    assert_eq!(iter.next(), None);
}

#[test]
fn a_clone_is_the_same_value() {
    for input in ["", "a 1px 'b' url(c) U+1-2", "f(a [b {c (d) e} f] g) h", "{ a { b } } ) ] }"].iter() {
        let nodes = tokenize(input);
        assert_eq!(nodes.clone(), nodes);
        for (value, _) in nodes.iter() {
            assert_eq!(&value.clone(), value);
        }
    }
    let number = number("+1.5e3", None);
    assert_eq!(number.clone(), number);
}
