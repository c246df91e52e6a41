use cssparser::ast::NumericValue;
use cssparser::token::Token;
use cssparser::token_list::TokenList;
use cssparser::tokenizer::Tokenizer;

fn tokens(input: &str) -> Vec<Token> {
    let mut tokenizer = Tokenizer::new(input);
    let mut result = Vec::new();
    while let Some(token) = tokenizer.next() {
        result.push(token);
    }
    result
}

fn number(representation: &str, int_value: Option<i64>) -> NumericValue {
    NumericValue { representation: representation.to_string(), int_value }
}

#[test]
fn tokenizes_a_declaration() {
    assert_eq!(
        tokens("color: red;"),
        vec![
            Token::Ident("color".to_string()),
            Token::Colon,
            Token::WhiteSpace,
            Token::Ident("red".to_string()),
            Token::Semicolon,
        ]
    );
}

#[test]
fn tokenizes_numbers() {
    assert_eq!(
        tokens("12 +4.5 -3e2 10px 50% 1e-3 .5"),
        vec![
            Token::Number(number("12", Some(12))),
            Token::WhiteSpace,
            Token::Number(number("+4.5", None)),
            Token::WhiteSpace,
            Token::Number(number("-3e2", None)),
            Token::WhiteSpace,
            Token::Dimension(number("10", Some(10)), "px".to_string()),
            Token::WhiteSpace,
            Token::Percentage(number("50", Some(50))),
            Token::WhiteSpace,
            Token::Number(number("1e-3", None)),
            Token::WhiteSpace,
            Token::Number(number(".5", None)),
        ]
    );
}

#[test]
fn token_list_matches_blocks() {
    let list = TokenList::new("a { b ( c ) } d");
    assert_eq!(list.len(), 15);
    assert_eq!(list.close(2), 12);
    assert_eq!(list.value_end(2), 13);
    assert_eq!(list.close(6), 10);
    assert_eq!(list.value_end(0), 1);
}

#[test]
fn the_token_list_holds_what_the_tokenizer_hands_out() {
    let input = "a { b: url( c ) \"d\" 1e3px /* e */ } @f #g h(i) U+1-2 <!-- --> [ ( ";
    let list = TokenList::new(input);
    let all = tokens(input);
    assert_eq!(list.len(), all.len());
    for (index, token) in all.iter().enumerate() {
        assert_eq!(list.get(index), token);
    }
}

#[test]
fn line_endings_and_nul_are_normalized_before_reading() {
    assert_eq!(
        tokens("a\r\nb\rc\u{c}d\0e"),
        vec![
            Token::Ident("a".to_string()),
            Token::WhiteSpace,
            Token::Ident("b".to_string()),
            Token::WhiteSpace,
            Token::Ident("c".to_string()),
            Token::WhiteSpace,
            Token::Ident("d\u{fffd}e".to_string()),
        ]
    );
}

#[test]
fn comments_are_handed_out_with_their_text() {
    assert_eq!(
        tokens("/* a */b/**//* c"),
        vec![
            Token::Comment(" a ".to_string()),
            Token::Ident("b".to_string()),
            Token::Comment("".to_string()),
            Token::Comment(" c".to_string()),
        ]
    );
}
