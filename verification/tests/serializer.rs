use cssparser::ast::{ComponentValue, NumericValue, SourceLocation};
use cssparser::json::{list_to_json, values_to_json};
use cssparser::serializer::{nodes_to_css, to_css};
use cssparser::syntax::tokenize;

fn values(input: &str) -> Vec<ComponentValue> {
    tokenize(input).into_iter().map(|(value, _)| without_locations(value)).collect()
}

fn without_locations(value: ComponentValue) -> ComponentValue {
    match value {
        ComponentValue::Function(name, arguments) => ComponentValue::Function(
            name,
            arguments.into_iter().map(without_locations).collect(),
        ),
        ComponentValue::ParenthesisBlock(content) => ComponentValue::ParenthesisBlock(
            content.into_iter().map(without_locations).collect(),
        ),
        ComponentValue::SquareBracketBlock(content) => ComponentValue::SquareBracketBlock(
            content.into_iter().map(without_locations).collect(),
        ),
        ComponentValue::CurlyBracketBlock(content) => ComponentValue::CurlyBracketBlock(
            content
                .into_iter()
                .map(|(value, _)| (without_locations(value), SourceLocation { line: 0, column: 0 }))
                .collect(),
        ),
        other => other,
    }
}

fn round_trip(input: &str) {
    let first = values(input);
    let text = to_css(&first);
    let second = values(&text);
    assert_eq!(first, second, "{:?} was written as {:?}", input, text);
}

#[test]
fn serializer() {
    let inputs = [
        "",
        "/*/*///** /* **/*//* ",
        "red",
        "  \t\t\r\n\nRed ",
        "red/* CDC */-->",
        "red-->/* Not CDC */",
        "\\- red0 -red --red -\\-red\\ blue 0red -0red \0red _Red .red rêd r\\êd \u{7f}\u{80}\u{81}",
        "\\30red \\00030 red \\30\r\nred \\0000000red \\1100000red \\red \\r ed \\.red \\ red \\\nred \\376\\37 6\\000376\\0000376\\",
        "rgba0() -rgba() --rgba() -\\-rgba() 0rgba() -0rgba() _rgba() .rgba() rgbâ() \\30rgba() rgba () @rgba() #rgba()",
        "@media0 @-Media @--media @0media @-0media @_media @.media @medİa @\\30 media\\",
        "#red0 #-Red #--red #-\\-red #0red #-0red #_Red #.red #rêd #êrd #\\.red\\",
        "p[example=\"\\\nfoo(int x) {\\\n   this.x = x;\\\n}\\\n\"]",
        "'' 'Lorem \"îpsum\"' 'a\\\nb' 'a\nb 'eof",
        "\"\" \"Lorem 'îpsum'\" \"a\\\nb\" \"a\nb \"eof",
        "\"Lo\\rem \\130 ps\\u m\" '\\376\\37 6\\000376\\0000376\\",
        "url( '') url('Lorem \"îpsum\"'\n) url('a\\\nb' ) url('a\nb) url('eof",
        "url(",
        "url( \t",
        "url(\"\") url(\"Lorem 'îpsum'\"\n) url(\"a\\\nb\" ) url(\"a\nb) url(\"eof",
        "url(\"Lo\\rem \\130 ps\\u m\") url('\\376\\37 6\\000376\\0000376\\",
        "URL(foo) Url(foo) ûrl(foo) url (foo) url\\ (foo) UR\\l(foo)",
        "url(foo) url( foo\t) url(-foo\\ bar) url(f\\6fo)",
        "url( ) url(\ta) url(b\n) url( c\t) url(\t d d) URL(e\\)\\ f) url(g",
        "url(\u{1}) url(a\"b) url(a'b) url(a(b) url(a\\\nb) url(x y) z",
        "12 +34 -45 .67 +.89 -.01 2.3 +45.0 -0.67",
        "12e2 +34e+1 -45E-0 .68e+3 3. /* Decimal point must have following digits */ 3e /* Exponent must have following digits */ 3e+ 3e-3.5",
        "3. /* Decimal point must have following digits */",
        "3\\65-2 /* Scientific notation is not parsed as a dimension */",
        "3\\65 2 1\\45 3 1\\45-3 1e 1e/**/3",
        "12% +34% -45% .67% +.89% -.01% 2.3% +45.0% -0.67%",
        "12e2% +34e+1% -45E-0% .68e+3% +.79e-1% -.01E2% 2.3E+1% +45.0e6% -0.67e0%",
        "12\\% /* Percent sign can not be escaped */",
        "12px +34px -45px .67px +.89px -.01px 2.3px +45.0px -0.67px",
        "12e2px +34e+1px -45E-0px .68e+3px +.79e-1px -.01E2px 2.3E+1px +45.0e6px -0.67e0px",
        "12red0 12.0-red 12--red 12-\\-red 120red 12-0red 12\0red 12_Red 12.red 12rêd",
        "u+1 U+10 U+100 U+1000 U+10000 U+100000 U+1000000",
        "u+? u+1? U+10? U+100? U+1000? U+10000? U+100000?",
        "u+?? U+1?? U+10?? U+100?? U+1000?? U+10000??",
        "u+??? U+1??? U+10??? U+100??? U+1000???",
        "u+???? U+1???? U+10???? U+100????",
        "u+????? U+1????? U+10?????",
        "u+?????? U+1??????",
        "u+1-2 U+100000-2 U+1000000-2 U+10-200000",
        "ù+12 ü+12 u +12 U+ 12 U+12 - 20 U+12- 20 U+12 -20",
        "u+a-f u+A-F u/**/+/**/? u/**/+/**/a u+1/**/a u+1-2/**/a u+1-2/**/3 u+12/**/? u+1/**/-/**/2",
        "~=|=^=$=*=||<!------> |/**/| ~/**/=",
        "a:not([href^=http\\:],  [href ^=\t'https\\:'\n]) { color: rgba(0%, 100%, 50%); }",
        "@media print { (foo]{bar) }baz",
        "[()]{}  ) ] }",
        "( ] ) [ { ( }",
        "a/**/b a/**/1 a/**/-1 a/**/- a/**/--> a/**/( a/**/b( a/**/url(x) a/**/+ a/**/+1",
        "@a/**/b @a/**/1 @a/**/- @a/**/--> #a/**/b #a/**/1 #a/**/- #a/**/--> 1px/**/b 1px/**/1 1px/**/- 1px/**/-->",
        "1/**/b 1/**/1 1/**/% 1/**/- 1/**/--> 1/**/1% 1/**/1px 1/**/.5 1/**/e3 1/**/E-3 1/**/url(x",
        "#/**/a #/**/1 #/**/- #/**/--> -/**/a -/**/1 -/**/- -/**/--> -/**/-/**/> @/**/a @/**/- @/**/-->",
        "./**/1 ./**/1% ./**/1px +/**/1 +/**/.5 -/**/.5 +/**/./**/5 1/**/./**/5",
        "$/**/= ^/**/= ~/**/= */**/= |/**/= |/**/| |/**/|= |/**/|| //**/* //**/*= </**/!-- </**/!/**/--",
        " /**/ /**/ a /**/ /**/",
        "\\-/**/> --/**/> -\\-/**/> a--/**/>",
        "\\\n \\\n/**/ \\\n\n'\n '\n/**/ ",
        "a\\\n b\\\n 1\\\n @a\\\n #a\\\n",
        "\\31 23 \\-1 -\\31 -\\-1 \\2d \\2d\\2d \\2d a",
        "'\\1' '\\7f' '\\a' '\\\\' '\\\"' \"'\" '\\9 x' '  '",
        "url(\\1) url(\\7f) url(\\a) url(\\\\) url(\\\") url(\\') url(\\() url(\\)) url(\\20) url(a\\20 b)",
        "#\\31 #\\-1 #\\2d #1 #-1 #- #-- #--1 #\\41 B #a\\.b",
        "1\\65 1\\45 1\\65 m 1e\\33 1\\2d 1-\\2d 1--",
        "a{b(c[d{e}f]g)h}i",
        "{ [ ( a", 
        "f( g( url(x) url(\"y\") url( 'z",
        "U+0/**/0 U+10FFFF/**/f U+0-10ffff/**/- U+1/**/? u+1?/**/? u+??????/**/?",
        "<!--/**/-- <!--a -->a -->/**/> a<!-- 1<!-- 1--> a-->",
    ];
    for input in inputs.iter() {
        round_trip(input);
    }
}

#[test]
fn the_text_of_a_value_is_as_stated() {
    let number = |representation: &str| NumericValue {
        representation: representation.to_string(),
        int_value: None,
    };
    assert_eq!(ComponentValue::Ident("a b".to_string()).to_css(), "a\\20 b");
    assert_eq!(ComponentValue::Ident("0a".to_string()).to_css(), "\\30 a");
    assert_eq!(ComponentValue::Ident("-".to_string()).to_css(), "\\-");
    assert_eq!(ComponentValue::Ident("--x".to_string()).to_css(), "-\\-x");
    assert_eq!(ComponentValue::Ident("-1".to_string()).to_css(), "-\\31 ");
    assert_eq!(ComponentValue::Ident("a.b".to_string()).to_css(), "a\\.b");
    assert_eq!(ComponentValue::AtKeyword("media".to_string()).to_css(), "@media");
    assert_eq!(ComponentValue::Hash("0a".to_string()).to_css(), "#0a");
    assert_eq!(ComponentValue::IDHash("a".to_string()).to_css(), "#a");
    assert_eq!(ComponentValue::String("a\"b\\c\nd".to_string()).to_css(), "\"a\\\"b\\\\c\\a d\"");
    assert_eq!(ComponentValue::URL("a b)".to_string()).to_css(), "url(a\\20 b\\))");
    assert_eq!(ComponentValue::Delim('\\').to_css(), "\\\n");
    assert_eq!(ComponentValue::Delim('+').to_css(), "+");
    assert_eq!(ComponentValue::Number(number("+1.5e3")).to_css(), "+1.5e3");
    assert_eq!(ComponentValue::Percentage(number("50")).to_css(), "50%");
    assert_eq!(ComponentValue::Dimension(number("1"), "px".to_string()).to_css(), "1px");
    assert_eq!(ComponentValue::Dimension(number("1"), "em".to_string()).to_css(), "1\\65 m");
    assert_eq!(ComponentValue::UnicodeRange(0x26, 0x10ffff).to_css(), "U+26-10ffff");
    assert_eq!(ComponentValue::UnicodeRange(0, 0).to_css(), "U+0-000000");
    assert_eq!(ComponentValue::BadURL.to_css(), "url(()");
    assert_eq!(ComponentValue::BadString.to_css(), "\"\n");
    assert_eq!(
        ComponentValue::Function(
            "f".to_string(),
            vec![ComponentValue::Ident("a".to_string()), ComponentValue::Ident("b".to_string())]
        )
        .to_css(),
        "f(a/**/b)"
    );
    assert_eq!(
        to_css(&vec![
            ComponentValue::WhiteSpace,
            ComponentValue::WhiteSpace,
            ComponentValue::Number(number("1")),
            ComponentValue::Delim('%'),
            ComponentValue::CDO,
            ComponentValue::CDC,
        ]),
        " /**/ 1/**/%<!---->"
    );
}

/// A small generator of numbers that gives the same numbers each time.
struct Numbers(u64);

impl Numbers {
    fn next(&mut self, below: usize) -> usize {
        self.0 = self.0.wrapping_mul(6364136223846793005).wrapping_add(1442695040888963407);
        ((self.0 >> 33) as usize) % below
    }
}

#[test]
fn texts_made_of_awkward_pieces_are_written_back_as_they_were_read() {
    let pieces = [
        "a", "e", "u", "U", "n", "url(", "URL(", "f(", "+", "-", ".", "1", "0", "9", "e3", "E-2",
        "?", "\\", "\\\n", "\\41 ", "\\-", "\\30 ", "/", "*", "/**/", "/*", "(", ")", "[",
        "]", "{", "}", " ", "\n", "\t", "\"", "'", "\"a\"", "#", "@", "<", "!", "<!--", "-->",
        ">", "|", "=", "~", "^", "$", "%", ":", ";", ",", "é", "_", "&", "\u{7f}", "\u{1}",
    ];
    let mut numbers = Numbers(2014);
    for _ in 0..40000 {
        let length = 1 + numbers.next(10);
        let mut input = String::new();
        for _ in 0..length {
            input.push_str(pieces[numbers.next(pieces.len())]);
        }
        round_trip(&input);
    }
}

#[test]
fn nodes_are_written_as_their_values_are() {
    for input in ["a { b: c }", "f(1 2)/**/3 'x", "@media print { (foo]{bar) }baz"].iter() {
        let nodes = tokenize(input);
        let values: Vec<ComponentValue> = nodes.iter().map(|(value, _)| value.clone()).collect();
        let text = nodes_to_css(&nodes);
        assert_eq!(text, to_css(&values));
        round_trip(&text);
    }
}

#[test]
fn a_block_left_open_is_written_closed() {
    assert_eq!(to_css(&values("f( [ { a")), "f( [ { a}])");
    assert_eq!(values("f( [ { a"), values("f( [ { a}])"));
}

#[test]
fn what_is_written_is_read_as_the_same_values() {
    let inputs = [
        "",
        "a b",
        "a/**/b",
        "1 2 +3 -4e5 6.7% 8px",
        "f(a, g(b [c {d} e] f) h) i",
        "url(x) url('y') UR\\L(z)",
        "f( [ { a",
        "} ] ) { ] ) } ( } ] ) [ ) } ]",
        "'a\\\nb' \"c \" d",
        "#a #1 @b @-c -- --x -1 - 1 +.5 .5e-3",
        "u+1-2 U+??? u+a?",
        "<!-- --> ~= |= ^= $= *= || | ~ ^ $ *",
        "a { b: c; d { e: f(g) } } h",
    ];
    for input in inputs.iter() {
        let first = tokenize(input);
        let again = tokenize(&nodes_to_css(&first));
        assert_eq!(again.len(), first.len(), "{:?}", input);
        for (read, written) in again.iter().zip(first.iter()) {
            assert_eq!(read.0.to_json(), written.0.to_json(), "{:?}", input);
        }
        assert_eq!(list_to_json(&again), list_to_json(&first), "{:?}", input);
        let values: Vec<ComponentValue> = first.into_iter().map(|(value, _)| value).collect();
        let read: Vec<ComponentValue> =
            tokenize(&to_css(&values)).into_iter().map(|(value, _)| value).collect();
        assert_eq!(values_to_json(&read), values_to_json(&values), "{:?}", input);
    }
}
